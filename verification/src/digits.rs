//! Whole numbers beyond the machine's own, as decimal digits: enough to write
//! `n * 2^k` in decimal for every `k`.
use crate::text::{decimal, digit_char};
use vstd::arithmetic::power2::{lemma_pow2_unfold, pow2};
use vstd::prelude::*;

verus! {

/// The number that these digits make, the ones first.
pub open spec fn digits_value(d: Seq<u8>) -> nat
    decreases d.len(),
{
    if d.len() == 0 {
        0
    } else {
        d[0] as nat + 10 * digits_value(d.skip(1))
    }
}

/// Digits without a needless zero in front of the highest one.
pub open spec fn are_digits(d: Seq<u8>) -> bool {
    &&& d.len() > 0
    &&& forall|i: int| 0 <= i < d.len() ==> d[i] < 10
    &&& d.len() > 1 ==> d.last() > 0
}

/// One digit stands for itself.
proof fn lemma_single(d: Seq<u8>)
    requires
        d.len() == 1,
    ensures
        digits_value(d) == d[0],
{
    reveal_with_fuel(digits_value, 2);
}

/// A number with a nonzero highest digit is not zero.
proof fn lemma_positive(d: Seq<u8>)
    requires
        d.len() > 0,
        d.last() > 0,
    ensures
        digits_value(d) > 0,
    decreases d.len(),
{
    if d.len() > 1 {
        assert(d.skip(1).last() == d.last());
        lemma_positive(d.skip(1));
    }
}

/// Writes the digits of `n` behind what `out` holds.
fn push_digits(n: u64, out: &mut Vec<u8>)
    ensures
        final(out)@.len() > old(out)@.len(),
        final(out)@.take(old(out)@.len() as int) == old(out)@,
        are_digits(final(out)@.skip(old(out)@.len() as int)),
        digits_value(final(out)@.skip(old(out)@.len() as int)) == n,
    decreases n,
{
    let ghost before = out@;
    out.push((n % 10) as u8);
    let ghost pushed = out@;
    if n >= 10 {
        push_digits(n / 10, out);
        proof {
            let new = out@.skip(before.len() as int);
            assert(out@.take(pushed.len() as int) == pushed);
            assert(new[0] == out@.take(pushed.len() as int)[before.len() as int]);
            assert(new.skip(1) =~= out@.skip(pushed.len() as int));
            assert(out@.take(before.len() as int) =~= pushed.take(before.len() as int));
            assert(new.last() == new.skip(1).last());
            if new.skip(1).len() == 1 {
                lemma_single(new.skip(1));
            }
            assert forall|i: int| 0 <= i < new.len() implies new[i] < 10 by {
                if i > 0 {
                    assert(new[i] == new.skip(1)[i - 1]);
                }
            }
        }
    } else {
        proof {
            let new = out@.skip(before.len() as int);
            assert(new =~= seq![(n % 10) as u8]);
            lemma_single(new);
            assert(out@.take(before.len() as int) =~= before);
        }
    }
}

/// Writes the digits of twice the number behind what `out` holds, from digit
/// `i` on and with a carry into it.
fn push_doubled(d: &Vec<u8>, i: usize, carry: u8, out: &mut Vec<u8>)
    requires
        i <= d.len(),
        carry <= 1,
        forall|j: int| 0 <= j < d.len() ==> d[j] < 10,
    ensures
        final(out)@.len() >= old(out)@.len() + (d.len() - i),
        final(out)@.take(old(out)@.len() as int) == old(out)@,
        forall|j: int| old(out)@.len() <= j < final(out)@.len() ==> final(out)@[j] < 10,
        digits_value(final(out)@.skip(old(out)@.len() as int)) == 2 * digits_value(d@.skip(i as int))
            + carry,
        i < d.len() && d@.last() > 0 ==> final(out)@.last() > 0,
        i == d.len() && carry > 0 ==> final(out)@.len() > old(out)@.len() && final(out)@.last() > 0,
        i == d.len() && carry == 0 ==> final(out)@ == old(out)@,
        i + 1 == d.len() && d@.last() == 0 && carry == 0 ==> final(out)@.len() == old(out)@.len() + 1,
    decreases d.len() - i,
{
    let ghost before = out@;
    if i == d.len() {
        if carry > 0 {
            out.push(carry);
        }
        proof {
            let new = out@.skip(before.len() as int);
            assert(out@.take(before.len() as int) =~= before);
            if carry > 0 {
                assert(new =~= seq![carry]);
                lemma_single(new);
            } else {
                assert(new.len() == 0);
            }
        }
    } else {
        let t: u8 = 2 * d[i] + carry;
        out.push(t % 10);
        let ghost pushed = out@;
        push_doubled(d, i + 1, t / 10, out);
        proof {
            let new = out@.skip(before.len() as int);
            let rest = d@.skip(i as int);
            assert(out@.take(pushed.len() as int) == pushed);
            assert(new[0] == out@.take(pushed.len() as int)[before.len() as int]);
            assert(new.skip(1) =~= out@.skip(pushed.len() as int));
            assert(out@.take(before.len() as int) =~= pushed.take(before.len() as int));
            assert(rest.skip(1) =~= d@.skip(i + 1));
            assert forall|j: int| before.len() <= j < out@.len() implies out@[j] < 10 by {
                if j == before.len() {
                    assert(out@.take(pushed.len() as int)[j] == t % 10);
                }
            }
            if i + 1 == d.len() && t / 10 == 0 {
                assert(out@.last() == t % 10);
            }
        }
    }
}

/// Writes digits as text, the highest first.
fn text_of(d: &Vec<u8>) -> (r: String)
    requires
        are_digits(d@),
    ensures
        r@ == decimal(digits_value(d@)),
{
    let mut s = String::new();
    let mut i: usize = d.len() - 1;
    s.push((48 + d[i]) as char);
    proof {
        lemma_single(d@.skip(i as int));
        assert(s@ =~= seq![digit_char(d@.last() as nat)]);
        assert(digits_value(d@.skip(i as int)) == d@.last());
    }
    while i > 0
        invariant
            i < d.len(),
            are_digits(d@),
            s@ == decimal(digits_value(d@.skip(i as int))),
        decreases i,
    {
        i -= 1;
        s.push((48 + d[i]) as char);
        proof {
            let rest = d@.skip(i as int);
            assert(rest.skip(1) =~= d@.skip(i + 1));
            assert(rest.skip(1).last() == d@.last());
            lemma_positive(rest.skip(1));
            let v = digits_value(rest);
            assert(v / 10 == digits_value(rest.skip(1)) && v % 10 == rest[0]);
        }
    }
    assert(d@.skip(0) =~= d@);
    s
}

/// Writes `n * 2^k` in decimal.
pub fn decimal_of_shifted(n: u64, k: u32) -> (r: String)
    ensures
        r@ == decimal(n as nat * pow2(k as nat)),
{
    let mut d: Vec<u8> = Vec::new();
    push_digits(n, &mut d);
    proof {
        assert(d@.skip(0) =~= d@);
        vstd::arithmetic::power2::lemma2_to64();
        assert(n as nat * 1 == n);
    }
    let mut i: u32 = 0;
    while i < k
        invariant
            i <= k,
            are_digits(d@),
            digits_value(d@) == n as nat * pow2(i as nat),
        decreases k - i,
    {
        let mut twice: Vec<u8> = Vec::new();
        push_doubled(&d, 0, 0, &mut twice);
        proof {
            assert(d@.skip(0) =~= d@);
            assert(twice@.skip(0) =~= twice@);
            let p = pow2(i as nat);
            lemma_pow2_unfold((i + 1) as nat);
            assert(n as nat * (2 * p) == 2 * (n as nat * p)) by (nonlinear_arith);
        }
        d = twice;
        i += 1;
    }
    text_of(&d)
}

} // verus!
