//! The order of values, and that rounding to 53 bits keeps it.
use crate::arith::{
    is_canonical, lemma_leading_bits, lemma_small_addend, lemma_sum_is_canonical,
    lemma_value_is_canonical, lemma_whole_value_bounds, packed, plus,
};
use crate::number::{
    doublings, excess_bits, lemma_excess_bits_bound, lemma_excess_unit, lemma_pow2_step,
    nearest_multiple, nearest_whole, product, quotient, sum, whole_part, whole_value, Binary64, Value,
    INFINITY, TWO_52, TWO_53,
};
use crate::single::{lemma_quotient_scales, lemma_rounding_is_monotone, nearest_quotient, upward};
use vstd::arithmetic::power2::{lemma_pow2_adds, pow2};
use vstd::prelude::*;

verus! {

/// Whether a value is no more than another.
pub open spec fn no_more(a: Value, b: Value) -> bool {
    a.units * upward(a.exponent - b.exponent) <= b.units * upward(b.exponent - a.exponent)
}

/// A value in units of `2^low`, which is no more than its own.
pub open spec fn in_units(v: Value, low: int) -> nat {
    v.units * pow2((v.exponent - low) as nat)
}

/// Values are ordered as they are in common units.
pub(crate) proof fn lemma_order_in_units(a: Value, b: Value, low: int)
    requires
        low <= a.exponent,
        low <= b.exponent,
    ensures
        no_more(a, b) <==> in_units(a, low) <= in_units(b, low),
{
    lemma_pow2_step(0);
    if a.exponent >= b.exponent {
        let s = (a.exponent - b.exponent) as nat;
        let r = (b.exponent - low) as nat;
        lemma_pow2_step(r);
        lemma_pow2_adds(s, r);
        assert(upward(s as int) == pow2(s));
        assert(b.units * 1 == b.units);
        assert((a.units * pow2(s) <= b.units) <==> (a.units * (pow2(s) * pow2(r)) <= b.units * pow2(
            r,
        ))) by (nonlinear_arith)
            requires
                pow2(r) > 0,
        ;
    } else {
        let s = (b.exponent - a.exponent) as nat;
        let r = (a.exponent - low) as nat;
        lemma_pow2_step(r);
        lemma_pow2_adds(s, r);
        assert(a.units * 1 == a.units);
        assert((a.units <= b.units * pow2(s)) <==> (a.units * pow2(r) <= b.units * (pow2(s) * pow2(
            r,
        )))) by (nonlinear_arith)
            requires
                pow2(r) > 0,
        ;
    }
}

/// Two numbers of 53 leading bits are rounded in their order.
proof fn lemma_rounded_order(p: nat, q: nat, e: int, r: nat, s: nat, f: int)
    requires
        q > 0,
        s > 0,
        TWO_52 * q <= p <= TWO_53 * q,
        TWO_52 * s <= r <= TWO_53 * s,
        (p * s) * upward(e - f) <= (r * q) * upward(f - e),
    ensures
        no_more(
            Value { units: nearest_quotient(p, q), exponent: e },
            Value { units: nearest_quotient(r, s), exponent: f },
        ),
{
    let (m, n) = (nearest_quotient(p, q), nearest_quotient(r, s));
    lemma_rounded_range(p, q);
    lemma_rounded_range(r, s);
    lemma_pow2_step(0);
    if e == f {
        assert(p * s * 1 == p * s && r * q * 1 == r * q);
        lemma_quotient_scales(p, q, s);
        lemma_quotient_scales(r, s, q);
        assert(s * q == q * s) by (nonlinear_arith);
        lemma_rounding_is_monotone(p * s, r * q, q * s);
        assert(m * 1 == m && n * 1 == n);
    } else if e < f {
        let d = (f - e) as nat;
        lemma_pow2_step((d - 1) as nat);
        assert(m * 1 == m);
        assert(m <= n * pow2(d)) by (nonlinear_arith)
            requires
                m <= 0x20_0000_0000_0000,
                n >= 0x10_0000_0000_0000,
                pow2(d) >= 2,
        ;
    } else {
        let d = (e - f) as nat;
        lemma_pow2_step((d - 1) as nat);
        assert(r * q * 1 == r * q);
        let (c, u) = (0x10_0000_0000_0000nat, pow2(d));
        assert((c * q) * s <= p * s && r * q <= (2 * c * s) * q) by (nonlinear_arith)
            requires
                c * q <= p,
                r <= 2 * c * s,
        ;
        let z = c * q * s;
        assert(z > 0) by (nonlinear_arith)
            requires
                z == c * q * s,
                c > 0,
                q > 0,
                s > 0,
        ;
        assert((2 * c * s) * q == 2 * z) by (nonlinear_arith)
            requires
                z == c * q * s,
        ;
        assert(z * u <= 2 * z) by (nonlinear_arith)
            requires
                z <= p * s,
                (p * s) * u <= r * q,
                r * q <= 2 * z,
        ;
        assert(u <= 2) by (nonlinear_arith)
            requires
                z * u <= 2 * z,
                z > 0,
        ;
        assert(u == 2);
        assert((p * s) * 2 <= r * q) by (nonlinear_arith)
            requires
                (p * s) * u <= r * q,
                u == 2,
        ;
        assert(p * s == z && r * q == 2 * z);
        assert(p == c * q) by (nonlinear_arith)
            requires
                p * s == c * q * s,
                s > 0,
        ;
        assert(r == 2 * c * s) by (nonlinear_arith)
            requires
                r * q == 2 * (c * q * s),
                q > 0,
        ;
        vstd::arithmetic::div_mod::lemma_div_by_multiple(c as int, q as int);
        vstd::arithmetic::div_mod::lemma_mod_multiples_basic(c as int, q as int);
        vstd::arithmetic::div_mod::lemma_div_by_multiple((2 * c) as int, s as int);
        vstd::arithmetic::div_mod::lemma_mod_multiples_basic((2 * c) as int, s as int);
        assert(m == c && n == 2 * c);
        assert(n * 1 == n);
        assert(m * u == 2 * c) by (nonlinear_arith)
            requires
                m == c,
                u == 2,
        ;
    }
}

/// A number of 53 leading bits is rounded to as many, or to the next power of two.
proof fn lemma_rounded_range(p: nat, q: nat)
    requires
        q > 0,
        TWO_52 * q <= p <= TWO_53 * q,
    ensures
        TWO_52 <= nearest_quotient(p, q) <= TWO_53,
{
    vstd::arithmetic::div_mod::lemma_fundamental_div_mod(p as int, q as int);
    let low = p / q;
    assert(low >= 0x10_0000_0000_0000 && low <= 0x20_0000_0000_0000 && (low
        == 0x20_0000_0000_0000 ==> p % q == 0)) by (nonlinear_arith)
        requires
            p == q * low + p % q,
            0 <= p % q < q,
            0x10_0000_0000_0000 * q <= p <= 0x20_0000_0000_0000 * q,
    ;
}

/// The nearest multiple counts as many units as the nearest whole number of them.
proof fn lemma_multiple_is_quotient(n: nat, unit: nat)
    requires
        unit > 0,
    ensures
        nearest_multiple(n, unit) / unit == nearest_quotient(n, unit),
{
    let q = n / unit;
    vstd::arithmetic::div_mod::lemma_div_by_multiple(q as int, unit as int);
    vstd::arithmetic::div_mod::lemma_div_by_multiple((q + 1) as int, unit as int);
}

/// A whole number of at least 53 bits lies between the powers that rounding uses.
proof fn lemma_whole_is_leading(n: nat)
    requires
        n >= TWO_52,
    ensures
        ({
            let unit = pow2(excess_bits(n));
            &&& unit > 0
            &&& TWO_52 * unit <= n <= TWO_53 * unit
            &&& whole_value(n).units == nearest_quotient(n, unit)
        }),
{
    let unit = pow2(excess_bits(n));
    lemma_excess_unit(n);
    lemma_leading_bits(n);
    lemma_multiple_is_quotient(n, unit);
    let q = n / unit;
    assert(0x10_0000_0000_0000 * unit <= n && n <= 0x20_0000_0000_0000 * unit) by (nonlinear_arith)
        requires
            q == n / unit,
            0x10_0000_0000_0000 <= q < 0x20_0000_0000_0000,
            unit > 0,
    ;
}

/// The exact order of two numbers in their rounding units.
proof fn lemma_order_of_parts(p: nat, i: nat, e: int, r: nat, j: nat, f: int)
    requires
        no_more(Value { units: p, exponent: e }, Value { units: r, exponent: f }),
    ensures
        (p * pow2(j)) * upward((e + i) - (f + j)) <= (r * pow2(i)) * upward((f + j) - (e + i)),
{
    let low = if e <= f {
        e
    } else {
        f
    };
    let (a, b) = (Value { units: p, exponent: e }, Value { units: r, exponent: f });
    let (c, d) = (
        Value { units: p * pow2(j), exponent: e + i },
        Value { units: r * pow2(i), exponent: f + j },
    );
    lemma_order_in_units(a, b, low);
    lemma_order_in_units(c, d, low);
    let (s, t) = ((e - low) as nat, (f - low) as nat);
    lemma_pow2_adds(s, i);
    lemma_pow2_adds(t, j);
    let (x, y) = (p * pow2(s), r * pow2(t));
    let z = pow2(i) * pow2(j);
    assert(x * z <= y * z) by (nonlinear_arith)
        requires
            x <= y,
            z >= 0,
    ;
    assert((p * pow2(j)) * (pow2(s) * pow2(i)) == x * z) by (nonlinear_arith)
        requires
            x == p * pow2(s),
            z == pow2(i) * pow2(j),
    ;
    assert((r * pow2(i)) * (pow2(t) * pow2(j)) == y * z) by (nonlinear_arith)
        requires
            y == r * pow2(t),
            z == pow2(i) * pow2(j),
    ;
}

/// A larger whole number has no smaller nearest value.
pub proof fn lemma_wholes_are_ordered(a: nat, b: nat)
    requires
        a <= b,
    ensures
        no_more(whole_value(a), whole_value(b)),
{
    lemma_whole_value_bounds(a);
    lemma_whole_value_bounds(b);
    lemma_pow2_step(0);
    if b < TWO_53 {
        assert(a * 1 == a && b * 1 == b);
    } else if a < TWO_53 {
        let e = excess_bits(b);
        let v = whole_value(b);
        lemma_pow2_step((e - 1) as nat);
        assert(a * 1 == a);
        assert(a <= v.units * pow2(e)) by (nonlinear_arith)
            requires
                a < 0x20_0000_0000_0000,
                v.units >= 0x10_0000_0000_0000,
                pow2(e) >= 2,
        ;
    } else {
        let (i, j) = (excess_bits(a), excess_bits(b));
        lemma_whole_is_leading(a);
        lemma_whole_is_leading(b);
        assert(a * 1 == a && b * 1 == b);
        lemma_order_of_parts(a, i, 0, b, j, 0);
        lemma_rounded_order(a, pow2(i), i as int, b, pow2(j), j as int);
    }
}

/// Doubling stops between a bound and twice the bound.
proof fn lemma_doubled_range(a: nat, goal: nat)
    requires
        a > 0,
    ensures
        a * pow2(doublings(a, goal)) >= goal,
        a < goal ==> a * pow2(doublings(a, goal)) < 2 * goal,
        a >= goal ==> doublings(a, goal) == 0,
    decreases
            (if a < goal {
                goal - a
            } else {
                0
            }),
{
    lemma_pow2_step(0);
    if a < goal {
        let k = doublings(2 * a, goal);
        lemma_doubled_range(2 * a, goal);
        lemma_pow2_step(k);
        assert(a * (2 * pow2(k)) == (2 * a) * pow2(k)) by (nonlinear_arith);
        if 2 * a >= goal {
            assert((2 * a) * 1 == 2 * a);
        }
    } else {
        assert(a * 1 == a);
    }
}

/// A larger value has no smaller quotient by the same divisor.
pub proof fn lemma_quotients_are_ordered(a: Value, b: Value, t: Value)
    requires
        no_more(a, b),
        0 < a.units <= TWO_53,
        0 < b.units <= TWO_53,
        t.units > 0,
    ensures
        no_more(quotient(a, t), quotient(b, t)),
        quotient(a, t).units >= TWO_52,
        quotient(b, t).units >= TWO_52,
        quotient(a, t).units <= TWO_53,
        quotient(b, t).units <= TWO_53,
{
    let goal = t.units * (TWO_52 as nat);
    let (i, j) = (doublings(a.units, goal), doublings(b.units, goal));
    let (p, r) = (a.units * pow2(i), b.units * pow2(j));
    lemma_pow2_step(0);
    lemma_doubled_range(a.units, goal);
    lemma_doubled_range(b.units, goal);
    assert(a.units * 1 == a.units && b.units * 1 == b.units);
    assert(0x20_0000_0000_0000 <= 0x20_0000_0000_0000 * t.units);
    lemma_multiple_is_quotient(p, t.units);
    lemma_multiple_is_quotient(r, t.units);
    lemma_rounded_range(p, t.units);
    lemma_rounded_range(r, t.units);
    let (e, f) = (a.exponent - t.exponent - i, b.exponent - t.exponent - j);
    let low = if e <= f {
        e
    } else {
        f
    };
    let (x, y) = (Value { units: p, exponent: e }, Value { units: r, exponent: f });
    let (c, d) = (
        Value { units: a.units, exponent: a.exponent - t.exponent },
        Value { units: b.units, exponent: b.exponent - t.exponent },
    );
    assert(no_more(c, d));
    lemma_order_in_units(c, d, low);
    lemma_order_in_units(x, y, low);
    lemma_pow2_adds(i, (e - low) as nat);
    lemma_pow2_adds(j, (f - low) as nat);
    assert(in_units(x, low) == in_units(c, low)) by (nonlinear_arith)
        requires
            in_units(x, low) == (a.units * pow2(i)) * pow2((e - low) as nat),
            in_units(c, low) == a.units * (pow2(i) * pow2((e - low) as nat)),
    ;
    assert(in_units(y, low) == in_units(d, low)) by (nonlinear_arith)
        requires
            in_units(y, low) == (b.units * pow2(j)) * pow2((f - low) as nat),
            in_units(d, low) == b.units * (pow2(j) * pow2((f - low) as nat)),
    ;
    let (g, h) = (upward(e - f), upward(f - e));
    assert((p * t.units) * g <= (r * t.units) * h) by (nonlinear_arith)
        requires
            p * g <= r * h,
    ;
    lemma_rounded_order(p, t.units, e, r, t.units, f);
}

/// A larger value has no smaller product with the same factor.
pub proof fn lemma_products_are_ordered(a: Value, b: Value, w: Value)
    requires
        no_more(a, b),
        a.units >= TWO_52,
        b.units >= TWO_52,
        w.units > 0,
    ensures
        no_more(product(a, w), product(b, w)),
{
    let (p, r) = (a.units * w.units, b.units * w.units);
    assert(p >= a.units && r >= b.units) by (nonlinear_arith)
        requires
            p == a.units * w.units,
            r == b.units * w.units,
            w.units >= 1,
    ;
    let (i, j) = (excess_bits(p), excess_bits(r));
    let (e, f) = (a.exponent + w.exponent, b.exponent + w.exponent);
    lemma_whole_is_leading(p);
    lemma_whole_is_leading(r);
    let (g, h) = (upward(a.exponent - b.exponent), upward(b.exponent - a.exponent));
    assert(e - f == a.exponent - b.exponent);
    assert(p * g <= r * h) by (nonlinear_arith)
        requires
            p == a.units * w.units,
            r == b.units * w.units,
            a.units * g <= b.units * h,
    ;
    lemma_order_of_parts(p, i, e, r, j, f);
    lemma_rounded_order(p, pow2(i), e + i, r, pow2(j), f + j);
    assert(product(a, w) == (Value { units: nearest_quotient(p, pow2(i)), exponent: i + e }));
    assert(product(b, w) == (Value { units: nearest_quotient(r, pow2(j)), exponent: j + f }));
}

/// The nearest whole number in small enough units.
proof fn lemma_nearest_in_units(v: Value, k: nat)
    requires
        k >= 1,
        -(k as int) <= v.exponent,
    ensures
        nearest_whole(v) == (in_units(v, -(k as int)) + pow2((k - 1) as nat)) / pow2(k),
{
    let half = pow2((k - 1) as nat);
    lemma_pow2_step((k - 1) as nat);
    if v.exponent >= 0 {
        let whole = v.units * pow2(v.exponent as nat);
        lemma_pow2_adds(v.exponent as nat, k);
        assert(v.units * (pow2(v.exponent as nat) * pow2(k)) == whole * pow2(k)) by (nonlinear_arith)
            requires
                whole == v.units * pow2(v.exponent as nat),
        ;
        vstd::arithmetic::div_mod::lemma_fundamental_div_mod_converse(
            (whole * pow2(k) + half) as int,
            pow2(k) as int,
            whole as int,
            half as int,
        );
    } else {
        let i = (-v.exponent) as nat;
        let s = (k - i) as nat;
        let n = v.units + pow2((i - 1) as nat);
        lemma_pow2_step((i - 1) as nat);
        lemma_pow2_step(s);
        lemma_pow2_adds(s, i);
        lemma_pow2_adds(s, (i - 1) as nat);
        assert(v.units * pow2(s) + half == n * pow2(s)) by (nonlinear_arith)
            requires
                n == v.units + pow2((i - 1) as nat),
                half == pow2(s) * pow2((i - 1) as nat),
        ;
        assert(pow2(s) * pow2(i) == pow2(i) * pow2(s)) by (nonlinear_arith);
        lemma_quotient_scales(n, pow2(i), pow2(s));
    }
}

/// A larger value has no smaller nearest whole number.
pub proof fn lemma_nearest_wholes_are_ordered(a: Value, b: Value)
    requires
        no_more(a, b),
    ensures
        nearest_whole(a) <= nearest_whole(b),
{
    let low = if a.exponent <= b.exponent && a.exponent < 0 {
        a.exponent
    } else if b.exponent < 0 {
        b.exponent
    } else {
        -1
    };
    let k = (-low) as nat;
    lemma_order_in_units(a, b, low);
    lemma_nearest_in_units(a, k);
    lemma_nearest_in_units(b, k);
    lemma_pow2_step(k);
    let half = pow2((k - 1) as nat);
    vstd::arithmetic::div_mod::lemma_div_is_ordered(
        (in_units(a, low) + half) as int,
        (in_units(b, low) + half) as int,
        pow2(k) as int,
    );
}

/// A whole value over itself is one, and one is neutral for whole numbers of up to
/// 53 bits.
pub proof fn lemma_one_of_a_whole(t: Value, n: nat)
    requires
        0 < t.units <= TWO_53,
        0 < n < TWO_53,
    ensures
        quotient(t, t).units == TWO_52,
        nearest_whole(product(quotient(t, t), whole_value(n))) == n,
        nearest_whole(product(Value { units: 1, exponent: 0 }, whole_value(n))) == n,
{
    let c = TWO_52 as nat;
    lemma_pow2_step(0);
    vstd::arithmetic::power2::lemma2_to64_rest();
    lemma_doublings_to(t.units, 52);
    assert(t.units * c == t.units * pow2(52));
    lemma_multiple_is_quotient(t.units * c, t.units);
    assert(t.units * c == c * t.units) by (nonlinear_arith);
    vstd::arithmetic::div_mod::lemma_div_by_multiple(c as int, t.units as int);
    vstd::arithmetic::div_mod::lemma_mod_multiples_basic(c as int, t.units as int);
    let one = quotient(t, t);
    assert(one == (Value { units: c, exponent: -52 }));
    lemma_whole_value_bounds(n);
    assert(1 * n == n);
    assert(n * pow2(0) == n);
    let p = c * n;
    let k = excess_bits(p);
    assert(p < TWO_53 * pow2(52)) by (nonlinear_arith)
        requires
            p == c * n,
            c == 0x10_0000_0000_0000,
            n < 0x20_0000_0000_0000,
            pow2(52) == 0x10_0000_0000_0000,
            TWO_53 == 0x20_0000_0000_0000,
    ;
    lemma_excess_bits_bound(p, 52);
    lemma_pow2_step(k);
    let s = (52 - k) as nat;
    lemma_pow2_adds(s, k);
    let m = n * pow2(s);
    assert(p == m * pow2(k)) by (nonlinear_arith)
        requires
            p == c * n,
            m == n * pow2(s),
            c == pow2(s) * pow2(k),
    ;
    lemma_multiple_is_quotient(p, pow2(k));
    vstd::arithmetic::div_mod::lemma_div_by_multiple(m as int, pow2(k) as int);
    vstd::arithmetic::div_mod::lemma_mod_multiples_basic(m as int, pow2(k) as int);
    let v = product(one, whole_value(n));
    assert(v == (Value { units: m, exponent: k - 52 }));
    lemma_nearest_in_units(v, 53);
    lemma_pow2_adds(s, k + 1);
    lemma_pow2_step(52);
    assert(m * pow2((k + 1) as nat) == n * pow2(53)) by (nonlinear_arith)
        requires
            m == n * pow2(s),
            pow2(53) == pow2(s) * pow2((k + 1) as nat),
    ;
    vstd::arithmetic::div_mod::lemma_fundamental_div_mod_converse(
        (n * pow2(53) + pow2(52)) as int,
        pow2(53) as int,
        n as int,
        pow2(52) as int,
    );
}

/// A number reaches its multiple by a power of two after as many doublings.
proof fn lemma_doublings_to(a: nat, k: nat)
    requires
        a > 0,
    ensures
        doublings(a, a * pow2(k)) == k,
    decreases k,
{
    lemma_pow2_step(0);
    if k == 0 {
        assert(a * 1 == a);
    } else {
        let half = pow2((k - 1) as nat);
        lemma_pow2_step((k - 1) as nat);
        lemma_doublings_to(2 * a, (k - 1) as nat);
        assert((2 * a) * half == a * pow2(k)) by (nonlinear_arith)
            requires
                pow2(k) == 2 * half,
        ;
        assert(a < a * pow2(k)) by (nonlinear_arith)
            requires
                pow2(k) >= 2,
                a > 0,
        ;
    }
}

/// Nothing, over or times anything, is nothing.
pub proof fn lemma_nothing_is_no_share(t: Value, w: Value)
    requires
        t.units > 0,
    ensures
        nearest_whole(product(quotient(whole_value(0), t), w)) == 0,
{
    lemma_whole_value_bounds(0);
    lemma_pow2_step(0);
    let share = quotient(whole_value(0), t);
    assert(share.units == 0) by {
        assert(0nat * pow2(0) == 0);
        vstd::arithmetic::div_mod::lemma_div_of0(t.units as int);
        vstd::arithmetic::div_mod::lemma_small_mod(0, t.units);
        assert(0nat * t.units == 0);
    }
    let v = product(share, w);
    assert(0 * w.units == 0);
    assert(v.units == 0);
    if v.exponent >= 0 {
        assert(0nat * pow2(v.exponent as nat) == 0);
    } else {
        let half = pow2((-v.exponent - 1) as nat);
        lemma_pow2_step((-v.exponent - 1) as nat);
        vstd::arithmetic::div_mod::lemma_basic_div(half as int, (2 * half) as int);
    }
}

/// A finite pattern is that of its value.
proof fn lemma_pattern_of_value(x: Binary64)
    requires
        x.bits < INFINITY,
    ensures
        packed(x.value()) == x.bits,
        x.value().units == 0 ==> x.bits == 0,
        x.value().exponent <= 971,
{
    let field = x.bits / TWO_52;
    assert(x.bits == field * TWO_52 + x.bits % TWO_52);
}

/// A larger canonical value has no smaller pattern.
proof fn lemma_patterns_are_ordered(x: Binary64, v: Value)
    requires
        x.bits < INFINITY,
        is_canonical(v),
        no_more(x.value(), v),
    ensures
        x.bits <= packed(v) <= INFINITY,
{
    let a = x.value();
    lemma_pattern_of_value(x);
    lemma_value_is_canonical(x);
    lemma_pow2_step(0);
    if a.units > 0 {
        if v.exponent >= a.exponent {
            assert(a.units * 1 == a.units);
            lemma_pow2_step((v.exponent - a.exponent) as nat);
            if v.exponent == a.exponent {
                assert(v.units * 1 == v.units);
            } else if v.units == 0 {
                assert(0 * upward(v.exponent - a.exponent) == 0);
            }
        } else {
            let d = (a.exponent - v.exponent) as nat;
            assert(v.units * 1 == v.units);
            lemma_pow2_step((d - 1) as nat);
            let u = pow2((d - 1) as nat);
            assert(a.units * (2 * u) == 2 * (a.units * u)) by (nonlinear_arith);
            assert(a.units * u >= a.units) by (nonlinear_arith)
                requires
                    u >= 1,
            ;
            if v.units > 0 {
                assert(a.units == TWO_52 && v.units == TWO_53);
                if d > 1 {
                    lemma_pow2_step((d - 2) as nat);
                    assert(a.units * u >= 2 * a.units) by (nonlinear_arith)
                        requires
                            u >= 2,
                    ;
                }
            }
        }
    }
}

/// A number of 53 bits in smaller units is rounded to itself.
proof fn lemma_shifted_is_exact(x: Binary64, low: int)
    requires
        -1074 <= low <= x.value().exponent,
    ensures
        whole_value(in_units(x.value(), low)) == (Value {
            units: x.value().units,
            exponent: x.value().exponent - low,
        }),
{
    let a = x.value();
    let d = (a.exponent - low) as nat;
    lemma_value_is_canonical(x);
    lemma_pow2_step(0);
    lemma_pow2_step(d);
    if a.units >= TWO_52 {
        lemma_small_addend(a.units, d, 0);
    } else {
        assert(a.units * 1 == a.units);
        lemma_whole_value_bounds(a.units);
    }
}

/// A sum of two lengths is a length that is no less than either.
pub proof fn lemma_sum_covers(x: Binary64, y: Binary64)
    requires
        x.bits <= INFINITY,
        y.bits <= INFINITY,
    ensures
        x.bits <= plus(x, y).bits <= INFINITY,
        y.bits <= plus(x, y).bits,
{
    if x.bits < INFINITY && y.bits < INFINITY {
        let (a, b) = (x.value(), y.value());
        let low = if a.exponent <= b.exponent {
            a.exponent
        } else {
            b.exponent
        };
        let (p, q) = (in_units(a, low), in_units(b, low));
        lemma_value_is_canonical(x);
        lemma_value_is_canonical(y);
        lemma_sum_is_canonical(x, y);
        lemma_shifted_is_exact(x, low);
        lemma_shifted_is_exact(y, low);
        lemma_wholes_are_ordered(p, p + q);
        lemma_wholes_are_ordered(q, p + q);
        let w = whole_value(p + q);
        let s = sum(a, b);
        assert(s == (Value { units: w.units, exponent: w.exponent + low }));
        assert(s.exponent - a.exponent == w.exponent - whole_value(p).exponent);
        assert(s.exponent - b.exponent == w.exponent - whole_value(q).exponent);
        lemma_patterns_are_ordered(x, s);
        lemma_patterns_are_ordered(y, s);
    }
}

/// A quotient below a whole number stays below it when it is rounded to fine enough
/// units.
proof fn lemma_rounds_below(p: nat, d: nat, unit: nat, n: nat, rest: nat)
    requires
        p == n * d + rest,
        rest < d,
        unit >= d,
    ensures
        n * unit <= nearest_quotient(p * unit, d) < (n + 1) * unit,
{
    let low = (p * unit) / d;
    let over = (p * unit) % d;
    let most = (n + 1) * unit - 1;
    vstd::arithmetic::div_mod::lemma_fundamental_div_mod((p * unit) as int, d as int);
    assert(p * unit == (n * unit) * d + rest * unit) by (nonlinear_arith)
        requires
            p == n * d + rest,
    ;
    assert(low >= n * unit) by (nonlinear_arith)
        requires
            p * unit == d * low + over,
            over < d,
            p * unit == (n * unit) * d + rest * unit,
            rest * unit >= 0,
    ;
    assert(p * unit <= d * most) by (nonlinear_arith)
        requires
            p * unit == (n * unit) * d + rest * unit,
            rest <= d - 1,
            unit >= d,
            most == (n + 1) * unit - 1,
    ;
    assert(low <= most && (low == most ==> over == 0)) by (nonlinear_arith)
        requires
            p * unit == d * low + over,
            0 <= over < d,
            p * unit <= d * most,
    ;
}

/// Rounding a quotient to 53 bits does not change its whole part, for numbers of up
/// to 52 bits.
pub proof fn lemma_whole_part_of_quotient(p: nat, d: nat)
    requires
        p <= TWO_52,
        0 < d < TWO_53,
    ensures
        whole_part(quotient(whole_value(p), whole_value(d))) == p / d,
{
    lemma_whole_value_bounds(p);
    lemma_whole_value_bounds(d);
    lemma_pow2_step(0);
    let goal = d * (TWO_52 as nat);
    let k = doublings(p, goal);
    let unit = pow2(k);
    lemma_pow2_step(k);
    lemma_multiple_is_quotient(p * unit, d);
    let u = nearest_quotient(p * unit, d);
    assert(quotient(whole_value(p), whole_value(d)) == (Value { units: u, exponent: -(k as int) }));
    if p == 0 {
        assert(0 * unit == 0);
        assert(u == 0) by {
            vstd::arithmetic::div_mod::lemma_div_of0(d as int);
            vstd::arithmetic::div_mod::lemma_small_mod(0, d);
        }
        assert(0nat * 1 == 0);
        vstd::arithmetic::div_mod::lemma_div_of0(unit as int);
        vstd::arithmetic::div_mod::lemma_div_of0(d as int);
    } else {
        let n = p / d;
        let rest = p % d;
        lemma_doubled_range(p, goal);
        vstd::arithmetic::div_mod::lemma_fundamental_div_mod(p as int, d as int);
        assert(unit >= d) by (nonlinear_arith)
            requires
                p * unit >= goal,
                goal == d * 0x10_0000_0000_0000,
                p <= 0x10_0000_0000_0000,
                p > 0,
        ;
        assert(d * n == n * d) by (nonlinear_arith);
        lemma_rounds_below(p, d, unit, n, rest);
        assert((n + 1) * unit == n * unit + unit) by (nonlinear_arith);
        vstd::arithmetic::div_mod::lemma_fundamental_div_mod_converse(
            u as int,
            unit as int,
            n as int,
            (u - n * unit) as int,
        );
        if k == 0 {
            assert(u * 1 == u && u / 1 == u);
        }
    }
}

/// A whole number over a divisor of it, times another whole number, is exact.
pub proof fn lemma_whole_shares_are_exact(s: nat, d: nat, n: nat)
    requires
        s > 0,
        0 < d < TWO_53,
        s * d <= TWO_52,
        0 < n,
        s * n < TWO_53,
    ensures
        nearest_whole(product(quotient(whole_value(s * d), whole_value(d)), whole_value(n))) == s * n,
{
    let m = s * n;
    assert(n <= m && s * d > 0) by (nonlinear_arith)
        requires
            m == s * n,
            s >= 1,
            d >= 1,
    ;
    lemma_whole_value_bounds(s * d);
    lemma_whole_value_bounds(d);
    lemma_whole_value_bounds(n);
    lemma_pow2_step(0);
    let goal = d * (TWO_52 as nat);
    let k = doublings(s * d, goal);
    let unit = pow2(k);
    lemma_pow2_step(k);
    lemma_multiple_is_quotient((s * d) * unit, d);
    assert((s * d) * unit == (s * unit) * d) by (nonlinear_arith);
    vstd::arithmetic::div_mod::lemma_div_by_multiple((s * unit) as int, d as int);
    vstd::arithmetic::div_mod::lemma_mod_multiples_basic((s * unit) as int, d as int);
    let share = quotient(whole_value(s * d), whole_value(d));
    assert(share == (Value { units: s * unit, exponent: -(k as int) }));
    let p = (s * unit) * n;
    assert(p == m * unit) by (nonlinear_arith)
        requires
            p == (s * unit) * n,
            m == s * n,
    ;
    let e = excess_bits(p);
    assert(p < TWO_53 * unit) by (nonlinear_arith)
        requires
            p == m * unit,
            m < TWO_53,
            unit > 0,
    ;
    lemma_excess_bits_bound(p, k);
    lemma_pow2_step(e);
    let r = (k - e) as nat;
    lemma_pow2_adds(r, e);
    let u = m * pow2(r);
    assert(p == u * pow2(e)) by (nonlinear_arith)
        requires
            p == m * unit,
            u == m * pow2(r),
            unit == pow2(r) * pow2(e),
    ;
    lemma_multiple_is_quotient(p, pow2(e));
    vstd::arithmetic::div_mod::lemma_div_by_multiple(u as int, pow2(e) as int);
    vstd::arithmetic::div_mod::lemma_mod_multiples_basic(u as int, pow2(e) as int);
    let v = product(share, whole_value(n));
    assert(v == (Value { units: u, exponent: e - k }));
    lemma_nearest_in_units(v, k + 1);
    lemma_pow2_adds(r, e + 1);
    assert(u * pow2(e + 1) == m * pow2(k + 1)) by (nonlinear_arith)
        requires
            u == m * pow2(r),
            pow2(k + 1) == pow2(r) * pow2(e + 1),
    ;
    vstd::arithmetic::div_mod::lemma_fundamental_div_mod_converse(
        (m * pow2(k + 1) + pow2(k)) as int,
        pow2(k + 1) as int,
        m as int,
        pow2(k) as int,
    );
}

} // verus!
