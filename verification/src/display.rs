//! The progress, cost and time texts that a run shows.
use crate::arith::{lemma_whole_value_bounds, shown, shown_over};
use crate::number::{
    capped, fixed_text, lemma_pow2_step, lemma_whole_value_positive, nearest_whole, product,
    quotient, whole_value, Binary64, Dyadic, Value, INFINITY, TWO_53,
};
use crate::order::{
    lemma_nearest_wholes_are_ordered, lemma_nothing_is_no_share, lemma_one_of_a_whole,
    lemma_products_are_ordered, lemma_quotients_are_ordered, lemma_wholes_are_ordered,
};
use crate::text::{decimal, decimal_text, pad_left, padded_left, repeat_char, repeated};
use vstd::arithmetic::power2::pow2;
use vstd::prelude::*;

verus! {

/// The share that is done: everything where nothing is left to do, else the
/// binary64 quotient.
pub open spec fn share(done: nat, total: nat) -> Value {
    if total == 0 || done >= total {
        Value { units: 1, exponent: 0 }
    } else {
        quotient(whole_value(done), whole_value(total))
    }
}

/// How many of `width` marks stand for a share.
pub open spec fn filled_marks(done: nat, total: nat, width: nat) -> nat {
    capped(nearest_whole(product(share(done, total), whole_value(width))), width)
}

/// A share in percent.
pub open spec fn percent(done: nat, total: nat) -> nat {
    capped(nearest_whole(product(share(done, total), whole_value(100))), u64::MAX as nat)
}

/// A bar of `width` marks in brackets, and the percentage.
pub open spec fn bar_text(done: nat, total: nat, width: nat) -> Seq<char> {
    let filled = filled_marks(done, total, width);
    "["@ + repeated('#', filled) + repeated('-', (width - filled) as nat) + "] "@ + padded_left(
        decimal(percent(done, total)),
        3,
        ' ',
    ) + "%"@
}

/// Computes the share that is done.
fn share_done(done: usize, total: usize) -> (r: Dyadic)
    ensures
        r@ == share(done as nat, total as nat),
        r.units <= 0x20_0000_0000_0000,
        -200 <= r.exponent <= 200,
{
    if total == 0 || done >= total {
        Dyadic { units: 1, exponent: 0 }
    } else {
        let whole = Dyadic::from_whole(total as u128);
        proof {
            crate::number::lemma_whole_value_positive(total as nat);
        }
        Dyadic::from_whole(done as u128).over(whole)
    }
}

/// A fixed-width text progress bar like `[####------]  42%`.
pub fn progress_bar(done: usize, total: usize, width: usize) -> (r: String)
    ensures
        r@ == bar_text(done as nat, total as nat, width as nat),
{
    let part = share_done(done, total);
    let marks: u64 = part.times(Dyadic::from_whole(width as u128)).nearest();
    let filled: usize = if marks <= width as u64 {
        marks as usize
    } else {
        width
    };
    let pct: u64 = part.times(Dyadic::from_whole(100)).nearest();
    let mut s = "[".to_string();
    s.append(repeat_char('#', filled).as_str());
    s.append(repeat_char('-', width - filled).as_str());
    s.append("] ");
    let shown = decimal_text(pct);
    s.append(pad_left(shown.as_str(), 3, ' ').as_str());
    s.append("%");
    s
}

/// A share of `whole` parts, rounded, for a whole that binary64 holds exactly: all
/// of them where all is done, none where nothing is, and never more for less done.
proof fn lemma_share_of_whole(done: nat, more: nat, total: nat, whole: nat)
    requires
        done <= more,
        whole < TWO_53,
    ensures
        ({
            let part = nearest_whole(product(share(done, total), whole_value(whole)));
            let next = nearest_whole(product(share(more, total), whole_value(whole)));
            &&& part <= next <= whole
            &&& total == 0 || more >= total ==> next == whole
            &&& total > 0 && done == 0 ==> part == 0
        }),
{
    let w = whole_value(whole);
    let t = whole_value(total);
    lemma_whole_value_bounds(whole);
    lemma_whole_value_bounds(total);
    if whole == 0 {
        lemma_no_parts(share(done, total));
        lemma_no_parts(share(more, total));
    } else if total == 0 {
        lemma_one_of_a_whole(w, whole);
    } else {
        lemma_whole_value_positive(total);
        lemma_one_of_a_whole(t, whole);
        let last = if more < total {
            more
        } else {
            total
        };
        let first = if done < total {
            done
        } else {
            total
        };
        if done == 0 {
            lemma_nothing_is_no_share(t, w);
        } else {
            lemma_shares_are_ordered(first, last, t, w);
        }
        if last > 0 {
            lemma_shares_are_ordered(last, total, t, w);
        } else {
            lemma_nothing_is_no_share(t, w);
        }
    }
}

/// More of a whole is no smaller share of it.
proof fn lemma_shares_are_ordered(a: nat, b: nat, t: Value, w: Value)
    requires
        0 < a <= b,
        t.units > 0,
        w.units > 0,
    ensures
        nearest_whole(product(quotient(whole_value(a), t), w)) <= nearest_whole(
            product(quotient(whole_value(b), t), w),
        ),
{
    let (x, y) = (whole_value(a), whole_value(b));
    lemma_whole_value_bounds(a);
    lemma_whole_value_bounds(b);
    lemma_whole_value_positive(a);
    lemma_whole_value_positive(b);
    lemma_wholes_are_ordered(a, b);
    lemma_quotients_are_ordered(x, y, t);
    lemma_products_are_ordered(quotient(x, t), quotient(y, t), w);
    lemma_nearest_wholes_are_ordered(product(quotient(x, t), w), product(quotient(y, t), w));
}

/// A share of no parts is none.
proof fn lemma_no_parts(part: Value)
    ensures
        nearest_whole(product(part, whole_value(0))) == 0,
{
    lemma_whole_value_bounds(0);
    let v = product(part, whole_value(0));
    assert(part.units * 0 == 0);
    assert(v.units == 0);
    if v.exponent >= 0 {
        assert(0nat * pow2(v.exponent as nat) == 0);
    } else {
        let half = pow2((-v.exponent - 1) as nat);
        lemma_pow2_step((-v.exponent - 1) as nat);
        vstd::arithmetic::div_mod::lemma_basic_div(half as int, (2 * half) as int);
    }
}

/// A bar of a width that binary64 holds exactly has that many marks in seven more
/// characters. It is full at 100% where all is done or there is nothing to do, and
/// empty at 0% where nothing of something is done.
pub proof fn lemma_bar_is_fixed_width(done: nat, total: nat, width: nat)
    requires
        width < TWO_53,
    ensures
        bar_text(done, total, width).len() == width + 7,
        filled_marks(done, total, width) <= width,
        percent(done, total) <= 100,
        total == 0 || done >= total ==> filled_marks(done, total, width) == width && percent(
            done,
            total,
        ) == 100,
        total > 0 && done == 0 ==> filled_marks(done, total, width) == 0 && percent(done, total) == 0,
{
    lemma_share_of_whole(done, done, total, width);
    lemma_share_of_whole(done, done, total, 100);
    reveal_with_fuel(decimal, 4);
    reveal_strlit("[");
    reveal_strlit("] ");
    reveal_strlit("%");
    assert(1 <= decimal(percent(done, total)).len() <= 3);
}

/// A bar never goes back: with more done it has no fewer marks and no lower
/// percentage.
pub proof fn lemma_bar_never_goes_back(done: nat, more: nat, total: nat, width: nat)
    requires
        done <= more,
        width < TWO_53,
    ensures
        filled_marks(done, total, width) <= filled_marks(more, total, width),
        percent(done, total) <= percent(more, total),
{
    lemma_share_of_whole(done, more, total, width);
    lemma_share_of_whole(done, more, total, 100);
}

/// The minutes that are left at the average pace so far: seconds per finished
/// part, times the parts left, in minutes.
pub open spec fn minutes_left(elapsed: Binary64, done: nat, total: nat) -> Value {
    let per = quotient(elapsed.value(), whole_value(done));
    quotient(product(per, whole_value((total - done) as nat)), whole_value(60))
}

/// The text of the time left.
pub open spec fn eta_text(elapsed: Binary64, done: nat, total: nat) -> Seq<char> {
    if done == 0 || done >= total {
        "~-- left"@
    } else {
        "~"@ + fixed_text(minutes_left(elapsed, done, total), 1) + " min left"@
    }
}

/// Estimated time remaining, projected from the average pace so far. Returns
/// `~N.N min left` once at least one slot is done, otherwise a placeholder.
/// `elapsed` is a finite number of seconds.
pub fn eta_label(elapsed: Binary64, done: usize, total: usize) -> (r: String)
    requires
        elapsed.bits < INFINITY,
    ensures
        r@ == eta_text(elapsed, done as nat, total as nat),
{
    if done == 0 || done >= total {
        return "~-- left".to_string();
    }
    proof {
        crate::number::lemma_whole_value_positive(done as nat);
        crate::number::lemma_whole_value_positive(60);
    }
    let per = elapsed.decode().over(Dyadic::from_whole(done as u128));
    let left = per.times(Dyadic::from_whole((total - done) as u128));
    let minutes = left.over(Dyadic::from_whole(60));
    let mut s = "~".to_string();
    s.append(minutes.fixed(1).as_str());
    s.append(" min left");
    s
}

/// `2^30`.
pub const GIB: u64 = 0x4000_0000;

/// `2^20`.
pub const MIB: u64 = 0x10_0000;

/// A byte count scaled down by `2^k`.
pub open spec fn scaled_bytes(bytes: nat, k: int) -> Value {
    let v = whole_value(bytes);
    Value { units: v.units, exponent: v.exponent - k }
}

/// The text of a byte count.
pub open spec fn bytes_text(bytes: nat) -> Seq<char> {
    if bytes >= GIB {
        fixed_text(scaled_bytes(bytes, 30), 1) + " GB"@
    } else if bytes >= MIB {
        fixed_text(scaled_bytes(bytes, 20), 0) + " MB"@
    } else {
        fixed_text(scaled_bytes(bytes, 10), 0) + " KB"@
    }
}

/// Format a byte count as a compact `KB`/`MB`/`GB` string.
pub fn human_bytes(bytes: usize) -> (r: String)
    ensures
        r@ == bytes_text(bytes as nat),
{
    let v = Dyadic::from_whole(bytes as u128);
    if bytes as u64 >= GIB {
        let mut s = Dyadic { units: v.units, exponent: v.exponent - 30 }.fixed(1);
        s.append(" GB");
        s
    } else if bytes as u64 >= MIB {
        let mut s = Dyadic { units: v.units, exponent: v.exponent - 20 }.fixed(0);
        s.append(" MB");
        s
    } else {
        let mut s = Dyadic { units: v.units, exponent: v.exponent - 10 }.fixed(0);
        s.append(" KB");
        s
    }
}

/// One hour in seconds, as a binary64 pattern.
pub const HOUR_BITS: u64 = 0x40AC_2000_0000_0000;

/// One minute in seconds, as a binary64 pattern.
pub const MINUTE_BITS: u64 = 0x404E_0000_0000_0000;

/// The text of a number of seconds.
pub open spec fn duration_text(secs: Binary64) -> Seq<char> {
    if secs.at_least(Binary64 { bits: HOUR_BITS }) {
        shown_over(secs, 3600, 1) + " h"@
    } else if secs.at_least(Binary64 { bits: MINUTE_BITS }) {
        shown_over(secs, 60, 1) + " min"@
    } else {
        "~"@ + shown(secs, 0) + "s"@
    }
}

/// Format a duration in seconds as `~Ns` / `N.N min` / `N.N h`.
pub fn human_duration(secs: Binary64) -> (r: String)
    ensures
        r@ == duration_text(secs),
{
    if secs.reaches(Binary64 { bits: HOUR_BITS }) {
        let mut s = secs.fixed_over(3600, 1);
        s.append(" h");
        s
    } else if secs.reaches(Binary64 { bits: MINUTE_BITS }) {
        let mut s = secs.fixed_over(60, 1);
        s.append(" min");
        s
    } else {
        let mut s = "~".to_string();
        s.append(secs.fixed(0).as_str());
        s.append("s");
        s
    }
}

/// A number of seconds as an estimate: with one tilde, its own or one in front.
pub open spec fn estimate_text(secs: Binary64) -> Seq<char> {
    if secs.at_least(Binary64 { bits: MINUTE_BITS }) {
        "~"@ + duration_text(secs)
    } else {
        duration_text(secs)
    }
}

/// Format an estimated duration in seconds as `~Ns` / `~N.N min` / `~N.N h`.
pub fn estimated_duration(secs: Binary64) -> (r: String)
    ensures
        r@ == estimate_text(secs),
{
    if secs.reaches(Binary64 { bits: MINUTE_BITS }) {
        let mut s = "~".to_string();
        s.append(human_duration(secs).as_str());
        s
    } else {
        human_duration(secs)
    }
}

} // verus!
