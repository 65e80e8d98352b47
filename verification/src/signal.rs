//! Arithmetic on recorded samples: averaging channels, changing the rate, fading
//! and scaling.
use crate::audio::{
    at_least_one, channel_count, channel_stream, frames_at, interleaved, shape_slot, slot_start,
    stereo_streams, streams,
};
use crate::cli::M8_SAMPLE_RATE;
use crate::keeping::{keeps_capture, lemma_slots_are_captures};
use crate::level::{lemma_peak_is_greatest, peak, peak_abs, silence, Binary32, INFINITY_32, SIGN_32};
use crate::number::{
    capped, lemma_pow2_step, lemma_whole_value_positive, product, quotient, whole_part, whole_value, Binary64, Dyadic,
};
use crate::single::{
    fraction_32, lemma_fraction_is_a_share, lemma_gain_keeps_order, lemma_grains_are_ordered,
    lemma_grains_of_nonzero, lemma_nearest_is_near, lemma_nearest_rank_is_monotone,
    lemma_negated_value, lemma_rank_of_sum, lemma_rank_of_value, lemma_rank_orders_grains,
    lemma_share_lies_within, lemma_sum_commutes, lemma_whole_is_finite, lemma_zero_silences,
    nearest_single, negated, product_32, quotient_32, sum_32, whole_32, ONE_BITS, TWO_23,
    TWO_24,
};
use vstd::arithmetic::power2::pow2;
use vstd::prelude::*;

verus! {

/// The sum of samples, one after the other.
pub open spec fn total_32(samples: Seq<Binary32>) -> Binary32
    decreases samples.len(),
{
    if samples.len() == 0 {
        silence()
    } else {
        sum_32(total_32(samples.drop_last()), samples.last())
    }
}

/// The mean of the samples of a frame.
pub open spec fn mean_32(frame: Seq<Binary32>) -> Binary32 {
    quotient_32(total_32(frame), whole_32(frame.len()))
}

/// One channel made of all channels of an interleaved buffer: the mean of each
/// frame.
pub open spec fn mono_stream(native: Seq<Binary32>, ch: nat) -> Seq<Binary32> {
    Seq::new(
        native.len() / ch,
        |f: int| mean_32(native.subrange(f * ch as int, f * ch as int + ch as int)),
    )
}

/// The mean of frame `f` of an interleaved buffer.
fn frame_mean(native: &[Binary32], ch: usize, f: usize) -> (r: Binary32)
    requires
        ch >= 1,
        f * ch + ch <= native.len(),
    ensures
        r == mean_32(native@.subrange(f * ch as int, f * ch + ch)),
{
    let ghost frame = native@.subrange(f * ch as int, f * ch + ch);
    let mut sum = Binary32 { bits: 0 };
    let mut c: usize = 0;
    while c < ch
        invariant
            c <= ch,
            f * ch + ch <= native.len(),
            frame == native@.subrange(f * ch as int, f * ch + ch),
            sum == total_32(frame.take(c as int)),
        decreases ch - c,
    {
        assert(frame.take(c + 1).drop_last() =~= frame.take(c as int));
        sum = sum.plus(native[f * ch + c]);
        c += 1;
    }
    assert(frame.take(c as int) =~= frame);
    sum.over(Binary32::from_whole(ch as u64))
}

/// Averages all channels of an interleaved buffer, frame by frame.
pub fn mix_down(native: &[Binary32], native_channels: u16) -> (r: Vec<Binary32>)
    ensures
        r@ == mono_stream(native@, channel_count(native_channels)),
{
    let ch: usize = at_least_one(native_channels);
    let frames: usize = native.len() / ch;
    let ghost whole = mono_stream(native@, ch as nat);
    let mut out: Vec<Binary32> = Vec::new();
    let mut f: usize = 0;
    while f < frames
        invariant
            f <= frames,
            frames == native.len() / ch,
            ch >= 1,
            whole == mono_stream(native@, ch as nat),
            out@ =~= whole.take(f as int),
        decreases frames - f,
    {
        proof {
            assert(f * ch + ch <= native.len()) by (nonlinear_arith)
                requires
                    f + 1 <= native.len() / ch,
                    ch >= 1,
            ;
        }
        out.push(frame_mean(native, ch, f));
        f += 1;
    }
    assert(whole.take(f as int) =~= whole);
    out
}

/// How many frames a stream has after a change of its rate.
pub open spec fn resampled_len(len: nat, from_rate: u32, to_rate: u32) -> nat {
    let ratio = quotient(whole_value(to_rate as nat), whole_value(from_rate as nat));
    capped(
        crate::number::nearest_whole(product(whole_value(len), ratio)),
        usize::MAX as nat,
    )
}

/// The number of frames of a stream of `len` frames after a change of its rate.
pub fn resample_len(len: usize, from_rate: u32, to_rate: u32) -> (r: usize)
    requires
        from_rate > 0,
    ensures
        r == resampled_len(len as nat, from_rate, to_rate),
{
    proof {
        lemma_whole_value_positive(from_rate as nat);
    }
    let ratio = Dyadic::from_whole(to_rate as u128).over(Dyadic::from_whole(from_rate as u128));
    let n: u64 = Dyadic::from_whole(len as u128).times(ratio).nearest();
    if n > usize::MAX as u64 {
        usize::MAX
    } else {
        n as usize
    }
}

/// Which frame of the source lies at or just before frame `i` of a resampled
/// stream.
pub open spec fn source_frame(i: nat, from_rate: u32, to_rate: u32) -> nat {
    let ratio = quotient(whole_value(to_rate as nat), whole_value(from_rate as nat));
    whole_part(quotient(whole_value(i), ratio))
}

/// The two source frames between which frame `i` of a resampled stream lies, the
/// last frame of the source in place of any beyond it.
pub fn resample_neighbours(i: usize, from_rate: u32, to_rate: u32, last: usize) -> (r: (usize, usize))
    requires
        from_rate > 0,
        to_rate > 0,
    ensures
        r.0 == capped(source_frame(i as nat, from_rate, to_rate), last as nat),
        r.1 == capped(source_frame(i as nat, from_rate, to_rate) + 1, last as nat),
{
    proof {
        lemma_whole_value_positive(from_rate as nat);
        lemma_whole_value_positive(to_rate as nat);
    }
    let ratio = Dyadic::from_whole(to_rate as u128).over(Dyadic::from_whole(from_rate as u128));
    let at: u64 = Dyadic::from_whole(i as u128).over(ratio).floor();
    if at >= last as u64 {
        (last, last)
    } else {
        (at as usize, at as usize + 1)
    }
}


/// How far frame `i` of a resampled stream lies behind its source frame.
pub open spec fn source_share(i: nat, from_rate: u32, to_rate: u32) -> Binary32 {
    let ratio = quotient(whole_value(to_rate as nat), whole_value(from_rate as nat));
    fraction_32(quotient(whole_value(i), ratio))
}

/// How far frame `i` of a resampled stream lies behind its source frame.
fn resample_share(i: usize, from_rate: u32, to_rate: u32) -> (r: Binary32)
    requires
        from_rate > 0,
        to_rate > 0,
    ensures
        r == source_share(i as nat, from_rate, to_rate),
{
    proof {
        lemma_whole_value_positive(from_rate as nat);
        lemma_whole_value_positive(to_rate as nat);
    }
    let ratio = Dyadic::from_whole(to_rate as u128).over(Dyadic::from_whole(from_rate as u128));
    Dyadic::from_whole(i as u128).over(ratio).fraction()
}

/// The point that lies a share of the way from one sample to the next.
pub open spec fn between(a: Binary32, b: Binary32, share: Binary32) -> Binary32 {
    sum_32(a, product_32(sum_32(b, negated(a)), share))
}

/// A stream at another rate, with linear interpolation: each frame lies between
/// the two frames of the source around its time.
pub open spec fn resampled(input: Seq<Binary32>, from_rate: u32, to_rate: u32) -> Seq<Binary32> {
    if input.len() == 0 || from_rate == to_rate {
        input
    } else {
        Seq::new(
            resampled_len(input.len(), from_rate, to_rate),
            |i: int|
                {
                    let last = (input.len() - 1) as nat;
                    let at = source_frame(i as nat, from_rate, to_rate);
                    between(
                        input[capped(at, last) as int],
                        input[capped(at + 1, last) as int],
                        source_share(i as nat, from_rate, to_rate),
                    )
                },
        )
    }
}

/// Resample a single channel from `from_rate` to `to_rate` with linear
/// interpolation. Adequate for one-shot resampling of captured sampler audio.
pub fn resample_linear(input: &[Binary32], from_rate: u32, to_rate: u32) -> (r: Vec<Binary32>)
    requires
        from_rate > 0 || input.len() == 0 || from_rate == to_rate,
    ensures
        r@ == resampled(input@, from_rate, to_rate),
{
    let mut out: Vec<Binary32> = Vec::new();
    if input.len() == 0 || from_rate == to_rate {
        let mut i: usize = 0;
        while i < input.len()
            invariant
                i <= input.len(),
                out@ =~= input@.take(i as int),
            decreases input.len() - i,
        {
            out.push(input[i]);
            i += 1;
        }
        assert(input@.take(i as int) =~= input@);
        return out;
    }
    let ghost whole = resampled(input@, from_rate, to_rate);
    let len: usize = resample_len(input.len(), from_rate, to_rate);
    if to_rate == 0 {
        proof {
            lemma_no_frames_at_no_rate(input.len() as nat, from_rate);
        }
        return out;
    }
    let last: usize = input.len() - 1;
    let mut i: usize = 0;
    while i < len
        invariant
            i <= len,
            len == resampled_len(input.len() as nat, from_rate, to_rate),
            input.len() == last + 1,
            from_rate > 0,
            to_rate > 0,
            from_rate != to_rate,
            whole == resampled(input@, from_rate, to_rate),
            out@ =~= whole.take(i as int),
        decreases len - i,
    {
        let (at, next) = resample_neighbours(i, from_rate, to_rate, last);
        let (a, b) = (input[at], input[next]);
        let share = resample_share(i, from_rate, to_rate);
        out.push(a.plus(b.minus(a).times(share)));
        i += 1;
    }
    assert(whole.take(i as int) =~= whole);
    out
}

/// A rate of nothing leaves no frames.
proof fn lemma_no_frames_at_no_rate(len: nat, from_rate: u32)
    requires
        from_rate > 0,
    ensures
        resampled_len(len, from_rate, 0) == 0,
{
    let (none, whole, many) = (whole_value(0), whole_value(from_rate as nat), whole_value(len));
    lemma_whole_value_positive(from_rate as nat);
    crate::arith::lemma_whole_value_bounds(0);
    assert(none.units == 0);
    lemma_pow2_step(0);
    let ratio = quotient(none, whole);
    assert(ratio.units == 0) by {
        assert(0nat * pow2(0) == 0);
        vstd::arithmetic::div_mod::lemma_div_of0(whole.units as int);
        vstd::arithmetic::div_mod::lemma_small_mod(0, whole.units);
        assert(0nat * whole.units == 0);
    }
    let frames = product(many, ratio);
    assert(many.units * 0 == 0);
    assert(frames.units == 0);
    if frames.exponent >= 0 {
        assert(0nat * pow2(frames.exponent as nat) == 0);
    } else {
        let half = pow2((-frames.exponent - 1) as nat);
        lemma_pow2_step((-frames.exponent - 1) as nat);
        vstd::arithmetic::div_mod::lemma_basic_div(half as int, (2 * half) as int);
    }
}

/// The channels of a finished slot before trimming: one or two, at the output
/// rate.
pub open spec fn slot_channels(
    native: Seq<Binary32>,
    native_rate: u32,
    native_channels: u16,
    out_channels: u16,
) -> Seq<Seq<Binary32>> {
    let ch = channel_count(native_channels);
    if out_channels <= 1 {
        seq![resampled(mono_stream(native, ch), native_rate, M8_SAMPLE_RATE)]
    } else {
        let right: nat = if ch >= 2 {
            1
        } else {
            0
        };
        seq![
            resampled(channel_stream(native, ch, 0), native_rate, M8_SAMPLE_RATE),
            resampled(channel_stream(native, ch, right), native_rate, M8_SAMPLE_RATE),
        ]
    }
}

/// How many channels a finished slot has.
pub open spec fn slot_layout(out_channels: u16) -> nat {
    if out_channels <= 1 {
        1
    } else {
        2
    }
}

/// Channels as a slot: from the start of their sound on, interleaved and exactly
/// as long as the slot.
pub open spec fn finalized(
    channels: Seq<Seq<Binary32>>,
    slot_length: Binary64,
    onset_threshold: Binary32,
    lookback: nat,
) -> Seq<Binary32> {
    interleaved(
        channels,
        slot_start(channels, onset_threshold, lookback),
        frames_at(slot_length, M8_SAMPLE_RATE),
    )
}

/// Turn a captured interleaved native-rate buffer into a fixed-length output
/// slot: down-mix or expand to `out_channels`, resample to the output rate,
/// optionally trim the leading silence, then force exactly the frames of
/// `slot_length` so every slot is identical in size.
///
/// `onset_threshold` enables leading-silence trimming: everything before the first
/// frame reaching that level, minus `lookback_frames`, is dropped. Zero disables it.
pub fn finalize_slot(
    native: &[Binary32],
    native_rate: u32,
    native_channels: u16,
    out_channels: u16,
    slot_length: Binary64,
    onset_threshold: Binary32,
    lookback_frames: usize,
) -> (r: Vec<Binary32>)
    requires
        native_rate > 0 || native.len() < channel_count(native_channels),
        frames_at(slot_length, M8_SAMPLE_RATE) * slot_layout(out_channels) <= usize::MAX,
    ensures
        r.len() == frames_at(slot_length, M8_SAMPLE_RATE) * slot_layout(out_channels),
        r@ == finalized(
            slot_channels(native@, native_rate, native_channels, out_channels),
            slot_length,
            onset_threshold,
            lookback_frames as nat,
        ),
        native_rate == 44_100 ==> keeps_capture(
            r@,
            native@,
            native_channels,
            out_channels,
            0,
            frames_at(slot_length, 44_100) as int,
            onset_threshold,
            lookback_frames as nat,
        ),
{
    let ghost want = slot_channels(native@, native_rate, native_channels, out_channels);
    proof {
        if native.len() < channel_count(native_channels) {
            vstd::arithmetic::div_mod::lemma_basic_div(
                native.len() as int,
                channel_count(native_channels) as int,
            );
        }
    }
    let mut channels: Vec<Vec<Binary32>> = Vec::new();
    if out_channels <= 1 {
        let mono = mix_down(native, native_channels);
        channels.push(resample_linear(mono.as_slice(), native_rate, M8_SAMPLE_RATE));
    } else {
        let pair = stereo_streams(native, native_channels);
        let ghost both = streams(pair@);
        assert(both.len() == 2);
        assert(both.len() == pair@.len());
        assert(streams(pair@)[0] == pair@[0]@ && streams(pair@)[1] == pair@[1]@);
        channels.push(resample_linear(pair[0].as_slice(), native_rate, M8_SAMPLE_RATE));
        channels.push(resample_linear(pair[1].as_slice(), native_rate, M8_SAMPLE_RATE));
    }
    assert(streams(channels@) =~= want);
    proof {
        lemma_slots_are_captures(
            native@,
            native_channels,
            out_channels,
            slot_length,
            onset_threshold,
            lookback_frames as nat,
        );
    }
    shape_slot(&channels, slot_length, onset_threshold, lookback_frames)
}

/// How many frames a fade covers: as many as asked for, at most all.
pub open spec fn fade_len(len: nat, ch: nat, fade_frames: nat) -> nat {
    capped(fade_frames, len / ch)
}

/// A gain of so many steps out of those of a fade over `n` frames.
pub open spec fn fade_gain(steps: nat, n: nat) -> Binary32 {
    quotient_32(
        whole_32(steps),
        whole_32(
            if n > 2 {
                (n - 1) as nat
            } else {
                1
            },
        ),
    )
}

/// A gain of so many steps out of those of a fade over `n` frames.
fn gain_of(steps: usize, n: usize) -> (r: Binary32)
    ensures
        r == fade_gain(steps as nat, n as nat),
{
    let whole: usize = if n > 2 {
        n - 1
    } else {
        1
    };
    Binary32::from_whole(steps as u64).over(Binary32::from_whole(whole as u64))
}

/// A buffer with a linear fade-out: the gain falls by equal steps from the first
/// faded frame to nothing at the final one.
pub open spec fn end_faded(samples: Seq<Binary32>, ch: nat, fade_frames: nat) -> Seq<Binary32> {
    let n = fade_len(samples.len(), ch, fade_frames);
    let start = samples.len() / ch - n;
    Seq::new(
        samples.len(),
        |k: int|
            if start <= k / ch as int && k / (ch as int) < samples.len() / ch {
                product_32(samples[k], fade_gain((n - 1 - (k / ch as int - start)) as nat, n))
            } else {
                samples[k]
            },
    )
}

/// A buffer with a linear fade-in: the gain grows by equal steps from nothing at
/// the first frame to the last faded one.
pub open spec fn start_faded(samples: Seq<Binary32>, ch: nat, fade_frames: nat) -> Seq<Binary32> {
    let n = fade_len(samples.len(), ch, fade_frames);
    Seq::new(
        samples.len(),
        |k: int|
            if k / (ch as int) < n {
                product_32(samples[k], fade_gain((k / ch as int) as nat, n))
            } else {
                samples[k]
            },
    )
}

/// Apply a linear fade-out over the last `fade_frames` frames of an interleaved
/// buffer. Prevents a click where a slot is cut. Nothing changes when
/// `fade_frames` is 0.
pub fn apply_end_fade(samples: &mut Vec<Binary32>, channels: u16, fade_frames: usize)
    ensures
        final(samples)@ == end_faded(old(samples)@, channel_count(channels), fade_frames as nat),
{
    let ch: usize = at_least_one(channels);
    let frames: usize = samples.len() / ch;
    let n: usize = if fade_frames <= frames {
        fade_frames
    } else {
        frames
    };
    let start: usize = frames - n;
    let ghost before = samples@;
    let ghost after = end_faded(before, ch as nat, fade_frames as nat);
    let mut k: usize = 0;
    while k < samples.len()
        invariant
            k <= samples.len(),
            samples.len() == before.len(),
            ch >= 1,
            frames == before.len() / ch as nat,
            n == fade_len(before.len(), ch as nat, fade_frames as nat),
            start == frames - n,
            after == end_faded(before, ch as nat, fade_frames as nat),
            samples@ =~= after.take(k as int) + before.skip(k as int),
        decreases samples.len() - k,
    {
        let f: usize = k / ch;
        if start <= f && f < frames {
            let gain = gain_of(n - 1 - (f - start), n);
            let sample = samples[k];
            samples.set(k, sample.times(gain));
        }
        k += 1;
    }
    assert(samples@ =~= after);
}

/// Apply a linear fade-in over the first `fade_frames` frames of an interleaved
/// buffer. Removes the click that a trimmed slot would otherwise start with.
/// Nothing changes when `fade_frames` is 0.
pub fn apply_start_fade(samples: &mut Vec<Binary32>, channels: u16, fade_frames: usize)
    ensures
        final(samples)@ == start_faded(old(samples)@, channel_count(channels), fade_frames as nat),
{
    let ch: usize = at_least_one(channels);
    let frames: usize = samples.len() / ch;
    let n: usize = if fade_frames <= frames {
        fade_frames
    } else {
        frames
    };
    let ghost before = samples@;
    let ghost after = start_faded(before, ch as nat, fade_frames as nat);
    let mut k: usize = 0;
    while k < samples.len()
        invariant
            k <= samples.len(),
            samples.len() == before.len(),
            ch >= 1,
            n == fade_len(before.len(), ch as nat, fade_frames as nat),
            after == start_faded(before, ch as nat, fade_frames as nat),
            samples@ =~= after.take(k as int) + before.skip(k as int),
        decreases samples.len() - k,
    {
        let f: usize = k / ch;
        if f < n {
            let gain = gain_of(f, n);
            let sample = samples[k];
            samples.set(k, sample.times(gain));
        }
        k += 1;
    }
    assert(samples@ =~= after);
}

/// The peak below which a buffer counts as silent and is not made louder, as a
/// binary32 pattern.
pub const NOISE_FLOOR: u32 = 0x3586_37BD;

/// A buffer scaled by what brings its peak to a level; one that is essentially
/// silent is left alone.
pub open spec fn normalized(samples: Seq<Binary32>, target: Binary32) -> Seq<Binary32> {
    if peak(samples).at_least(Binary32 { bits: NOISE_FLOOR }) {
        samples.map_values(|s: Binary32| product_32(s, quotient_32(target, peak(samples))))
    } else {
        samples
    }
}

/// Scale an interleaved buffer so its loudest sample reaches `target_amp`. A
/// buffer that is essentially silent is left alone, so a quiet slot's noise floor
/// is never blown up.
pub fn normalize_peak(samples: &mut Vec<Binary32>, target_amp: Binary32)
    ensures
        final(samples)@ == normalized(old(samples)@, target_amp),
{
    let loudest = peak_abs(samples.as_slice());
    if !loudest.reaches(Binary32 { bits: NOISE_FLOOR }) {
        return;
    }
    let gain = target_amp.over(loudest);
    let ghost before = samples@;
    let ghost after = normalized(before, target_amp);
    let mut k: usize = 0;
    while k < samples.len()
        invariant
            k <= samples.len(),
            samples.len() == before.len(),
            gain == quotient_32(target_amp, peak(before)),
            peak(before).at_least(Binary32 { bits: NOISE_FLOOR }),
            after == normalized(before, target_amp),
            samples@ =~= after.take(k as int) + before.skip(k as int),
        decreases samples.len() - k,
    {
        let sample = samples[k];
        samples.set(k, sample.times(gain));
        k += 1;
    }
    assert(samples@ =~= after);
}

/// A fade-out leaves everything before its last frames alone, keeps its first
/// frame at full gain where it has more than one, and ends in silence.
pub proof fn lemma_end_fade_reaches_silence(samples: Seq<Binary32>, ch: nat, fade_frames: nat, k: int)
    requires
        ch >= 1,
        0 <= k < samples.len() <= usize::MAX,
        samples[k].magnitude().bits < INFINITY_32,
    ensures
        ({
            let n = fade_len(samples.len(), ch, fade_frames);
            let frames = samples.len() / ch;
            let f = k / ch as int;
            let out = end_faded(samples, ch, fade_frames);
            &&& f < frames - n || f >= frames ==> out[k] == samples[k]
            &&& n >= 2 && f == frames - n ==> out[k] == samples[k]
            &&& n >= 1 && f == frames - 1 ==> out[k].is_zero()
        }),
{
    let n = fade_len(samples.len(), ch, fade_frames);
    lemma_fade_gains(samples.len(), ch, fade_frames);
    crate::single::lemma_one_is_neutral(samples[k]);
    crate::single::lemma_zero_silences(samples[k]);
}

/// A fade-in starts in silence, reaches full gain at its last frame where it has
/// more than one, and leaves everything after it alone.
pub proof fn lemma_start_fade_leaves_silence(samples: Seq<Binary32>, ch: nat, fade_frames: nat, k: int)
    requires
        ch >= 1,
        0 <= k < samples.len() <= usize::MAX,
        samples[k].magnitude().bits < INFINITY_32,
    ensures
        ({
            let n = fade_len(samples.len(), ch, fade_frames);
            let f = k / ch as int;
            let out = start_faded(samples, ch, fade_frames);
            &&& f >= n ==> out[k] == samples[k]
            &&& n >= 2 && f == n - 1 ==> out[k] == samples[k]
            &&& n >= 1 && f == 0 ==> out[k].is_zero()
        }),
{
    lemma_fade_gains(samples.len(), ch, fade_frames);
    crate::single::lemma_one_is_neutral(samples[k]);
    crate::single::lemma_zero_silences(samples[k]);
}

/// The gains at both ends of a fade are nothing and one.
proof fn lemma_fade_gains(len: nat, ch: nat, fade_frames: nat)
    requires
        ch >= 1,
        len <= usize::MAX,
    ensures
        ({
            let n = fade_len(len, ch, fade_frames);
            &&& fade_gain(0, n) == silence()
            &&& n >= 2 ==> fade_gain((n - 1) as nat, n) == (Binary32 { bits: ONE_BITS })
        }),
{
    let n = fade_len(len, ch, fade_frames);
    assert(len / ch <= len) by (nonlinear_arith)
        requires
            ch >= 1,
    ;
    let steps = if n > 2 {
        (n - 1) as nat
    } else {
        1
    };
    lemma_whole_is_finite(steps as u64);
    lemma_whole_is_finite(0);
    crate::single::lemma_nothing_over(whole_32(steps));
    crate::single::lemma_whole_over_itself(whole_32(steps));
}

/// Normalizing keeps the dynamics: what was no louder before is no louder after.
pub proof fn lemma_normalizing_keeps_order(
    samples: Seq<Binary32>,
    target: Binary32,
    i: int,
    j: int,
)
    requires
        0 <= i < samples.len(),
        0 <= j < samples.len(),
        samples[i].magnitude().bits <= samples[j].magnitude().bits,
        samples[j].magnitude().bits < INFINITY_32,
        quotient_32(target, peak(samples)).magnitude().bits < INFINITY_32,
    ensures
        normalized(samples, target)[i].magnitude().bits <= normalized(
            samples,
            target,
        )[j].magnitude().bits,
{
    lemma_gain_keeps_order(samples[i], samples[j], quotient_32(target, peak(samples)));
}

/// Silence stays silence when the rest is normalized.
pub proof fn lemma_silence_stays_silent(samples: Seq<Binary32>, target: Binary32, i: int)
    requires
        0 <= i < samples.len(),
        samples[i].is_zero(),
        quotient_32(target, peak(samples)).magnitude().bits < INFINITY_32,
    ensures
        normalized(samples, target)[i].is_zero(),
{
    let gain = quotient_32(target, peak(samples));
    lemma_gain_keeps_order(samples[i], silence(), gain);
    lemma_sum_commutes(silence(), gain);
    lemma_zero_silences(gain);
}

/// Normalizing brings the loudest sample to the target, but for rounding: it is
/// off by no more than one part in `2^22`. The buffer is loud enough to be scaled,
/// and neither the target nor the gain is so small or so large that binary32 runs
/// out of digits.
pub proof fn lemma_normalized_peak_is_target(samples: Seq<Binary32>, target: Binary32)
    requires
        peak(samples).at_least(Binary32 { bits: NOISE_FLOOR }),
        peak(samples).bits < INFINITY_32,
        target.bits < INFINITY_32,
        target.grains() >= TWO_24,
        quotient_32(target, peak(samples)).bits < INFINITY_32,
        target.grains() * pow2(149) >= TWO_23 * peak(samples).grains(),
        peak(normalized(samples, target)).bits < INFINITY_32,
    ensures
        ({
            let loudest = peak(normalized(samples, target)).grains();
            &&& (loudest - target.grains()) * 0x40_0000 <= target.grains()
            &&& (target.grains() - loudest) * 0x40_0000 <= target.grains()
        }),
{
    let gain = quotient_32(target, peak(samples));
    let top = peak(normalized(samples, target));
    let (p, g, t, v) = (peak(samples).grains(), gain.grains(), target.grains(), top.grains());
    lemma_loudest_stays_loudest(samples, target);
    lemma_gain_is_near(target, peak(samples));
    lemma_pow2_step(149);
    lemma_gain_is_not_small(p, g, t, pow2(149));
    lemma_nearest_is_near(p * g, pow2(149), top);
    lemma_two_roundings(p, g, t, v, pow2(149));
}

/// The loudest sample of a normalized buffer is the scaled loudest one.
proof fn lemma_loudest_stays_loudest(samples: Seq<Binary32>, target: Binary32)
    requires
        peak(samples).at_least(Binary32 { bits: NOISE_FLOOR }),
        peak(samples).bits < INFINITY_32,
        quotient_32(target, peak(samples)).bits < INFINITY_32,
    ensures
        peak(normalized(samples, target)).bits == nearest_single(
            peak(samples).grains() * quotient_32(target, peak(samples)).grains(),
            pow2(149),
        ),
{
    let before = peak(samples);
    let after = normalized(samples, target);
    let gain = quotient_32(target, before);
    let most = nearest_single(before.grains() * gain.grains(), pow2(149));
    lemma_peak_is_greatest(samples);
    let i = choose|i: int| 0 <= i < samples.len() && #[trigger] samples[i].magnitude() == before;
    lemma_scaled_below(samples[i], before, gain);
    assert(after.len() == samples.len());
    assert(after[i] == product_32(samples[i], gain));
    assert forall|j: int| 0 <= j < after.len() && !(#[trigger] after[j]).is_nan() implies
        after[j].magnitude().bits <= most by {
        assert(after[j] == product_32(samples[j], gain));
        lemma_no_number_stays(samples[j], gain);
        assert(samples[j].magnitude().bits <= before.bits);
        lemma_scaled_below(samples[j], before, gain);
    }
    lemma_greatest_is_peak(after, most, i);
}

/// A sample no louder than another is no louder when both are scaled.
proof fn lemma_scaled_below(x: Binary32, loudest: Binary32, gain: Binary32)
    requires
        x.magnitude().bits <= loudest.bits,
        loudest.bits < INFINITY_32,
        gain.bits < INFINITY_32,
    ensures
        ({
            let most = nearest_single(loudest.grains() * gain.grains(), pow2(149));
            let scaled = product_32(x, gain);
            &&& scaled.magnitude().bits <= most <= INFINITY_32
            &&& !scaled.is_nan()
            &&& x.magnitude() == loudest ==> scaled.magnitude().bits == most
        }),
{
    lemma_gain_keeps_order(x, loudest, gain);
    lemma_grains_are_ordered(x, loudest);
    lemma_gain_keeps_order(x, x, gain);
}

/// What no sample exceeds and some sample reaches is the peak.
proof fn lemma_greatest_is_peak(samples: Seq<Binary32>, most: nat, i: int)
    requires
        0 <= i < samples.len(),
        !samples[i].is_nan(),
        samples[i].magnitude().bits == most,
        forall|j: int|
            0 <= j < samples.len() && !(#[trigger] samples[j]).is_nan() ==> samples[j].magnitude().bits
                <= most,
    ensures
        peak(samples).bits == most,
{
    lemma_peak_is_greatest(samples);
    if peak(samples) != silence() {
        let j = choose|j: int|
            0 <= j < samples.len() && #[trigger] samples[j].magnitude() == peak(samples);
        assert(!samples[j].is_nan());
    }
}

/// What is not a number stays so under any gain.
proof fn lemma_no_number_stays(x: Binary32, gain: Binary32)
    ensures
        x.is_nan() ==> product_32(x, gain).magnitude().is_nan(),
{
}

/// A gain is within one part in `2^24` of the fraction it stands for.
proof fn lemma_gain_is_near(target: Binary32, loudest: Binary32)
    requires
        0 < loudest.bits < INFINITY_32,
        target.bits < INFINITY_32,
        target.grains() >= TWO_24,
        quotient_32(target, loudest).bits < INFINITY_32,
        target.grains() * pow2(149) >= TWO_23 * loudest.grains(),
    ensures
        ({
            let g = quotient_32(target, loudest).grains() * loudest.grains();
            let t = target.grains() * pow2(149);
            (g - t) * TWO_24 <= t && (t - g) * TWO_24 <= t
        }),
{
    lemma_grains_of_nonzero(loudest);
    let gain = quotient_32(target, loudest);
    assert(gain.bits == nearest_single(target.grains() * pow2(149), loudest.grains()));
    lemma_nearest_is_near(target.grains() * pow2(149), loudest.grains(), gain);
}

/// The scaled peak is not too small to be rounded to 24 bits.
proof fn lemma_gain_is_not_small(p: nat, g: nat, t: nat, c: nat)
    requires
        t >= 0x100_0000,
        (t * c - g * p) * 0x100_0000 <= t * c,
    ensures
        p * g >= 0x80_0000 * c,
{
    assert(p * g == g * p) by (nonlinear_arith);
    assert(t * c >= 0x100_0000 * c) by (nonlinear_arith)
        requires
            t >= 0x100_0000,
    ;
}

/// Two roundings of one part in `2^24` are within one part in `2^22`.
proof fn lemma_two_roundings(p: nat, g: nat, t: nat, v: nat, c: nat)
    requires
        c > 0,
        (g * p - t * c) * 0x100_0000 <= t * c,
        (t * c - g * p) * 0x100_0000 <= t * c,
        (v * c - p * g) * 0x100_0000 <= p * g,
        (p * g - v * c) * 0x100_0000 <= p * g,
    ensures
        (v - t) * 0x40_0000 <= t,
        (t - v) * 0x40_0000 <= t,
{
    assert(p * g == g * p) by (nonlinear_arith);
    let (a, b) = (v * c, t * c);
    assert((a - b) * 0x40_0000 <= b && (b - a) * 0x40_0000 <= b);
    assert(((v - t) * 0x40_0000) * c <= t * c && ((t - v) * 0x40_0000) * c <= t * c)
        by (nonlinear_arith)
        requires
            a == v * c,
            b == t * c,
            (a - b) * 0x40_0000 <= b,
            (b - a) * 0x40_0000 <= b,
    ;
    assert((v - t) * 0x40_0000 <= t && (t - v) * 0x40_0000 <= t) by (nonlinear_arith)
        requires
            ((v - t) * 0x40_0000) * c <= t * c,
            ((t - v) * 0x40_0000) * c <= t * c,
            c > 0,
    ;
}

/// Changing the rate to the same one changes nothing.
pub proof fn lemma_same_rate_is_identity(input: Seq<Binary32>, rate: u32)
    ensures
        resampled(input, rate, rate) == input,
{
}

/// A point on the way from one sample to the next lies between the first and the
/// end of the way; that end is the second sample, wherever the difference of the two
/// needs no rounding.
pub proof fn lemma_point_lies_between(a: Binary32, b: Binary32, share: Binary32)
    requires
        a.magnitude().bits < INFINITY_32,
        b.magnitude().bits < INFINITY_32,
        sum_32(b, negated(a)).magnitude().bits < INFINITY_32,
        share.bits <= ONE_BITS,
    ensures
        ({
            let d = sum_32(b, negated(a));
            let end = sum_32(a, d);
            let r = between(a, b, share);
            &&& !r.is_nan()
            &&& a.rank() <= b.rank() ==> a.rank() <= r.rank() <= end.rank()
            &&& a.rank() >= b.rank() ==> end.rank() <= r.rank() <= a.rank()
            &&& d.signed_grains() == b.signed_grains() - a.signed_grains() ==> end.rank() == b.rank()
        }),
{
    let n = negated(a);
    let d = sum_32(b, n);
    let t = product_32(d, share);
    let (x, y, z) = (a.signed_grains(), d.signed_grains(), t.signed_grains());
    lemma_negated_value(a);
    lemma_share_lies_within(d, share);
    lemma_rank_of_sum(b, n);
    lemma_rank_of_sum(a, t);
    lemma_rank_of_sum(a, d);
    lemma_rank_of_value(a);
    lemma_rank_of_value(b);
    lemma_rank_of_value(d);
    if a.rank() <= b.rank() {
        lemma_rank_orders_grains(a, b);
        lemma_nearest_rank_is_monotone(0, b.signed_grains() - x);
        lemma_nearest_rank_is_monotone(x, x + z);
        lemma_nearest_rank_is_monotone(x + z, x + y);
    }
    if a.rank() >= b.rank() {
        lemma_rank_orders_grains(b, a);
        lemma_nearest_rank_is_monotone(b.signed_grains() - x, 0);
        lemma_nearest_rank_is_monotone(x + z, x);
        lemma_nearest_rank_is_monotone(x + y, x + z);
    }
}

/// Every frame of a stream at another rate lies between the two source frames around
/// it, wherever their difference needs no rounding.
pub proof fn lemma_frames_lie_between(
    input: Seq<Binary32>,
    from_rate: u32,
    to_rate: u32,
    i: int,
)
    requires
        input.len() > 0,
        from_rate != to_rate,
        0 <= i < resampled_len(input.len(), from_rate, to_rate),
        ({
            let last = (input.len() - 1) as nat;
            let at = source_frame(i as nat, from_rate, to_rate);
            let (a, b) = (input[capped(at, last) as int], input[capped(at + 1, last) as int]);
            let d = sum_32(b, negated(a));
            &&& a.magnitude().bits < INFINITY_32
            &&& b.magnitude().bits < INFINITY_32
            &&& d.magnitude().bits < INFINITY_32
            &&& d.signed_grains() == b.signed_grains() - a.signed_grains()
        }),
    ensures
        ({
            let last = (input.len() - 1) as nat;
            let at = source_frame(i as nat, from_rate, to_rate);
            let (a, b) = (input[capped(at, last) as int], input[capped(at + 1, last) as int]);
            let r = resampled(input, from_rate, to_rate)[i];
            a.rank() <= r.rank() <= b.rank() || b.rank() <= r.rank() <= a.rank()
        }),
{
    let last = (input.len() - 1) as nat;
    let at = source_frame(i as nat, from_rate, to_rate);
    let ratio = quotient(whole_value(to_rate as nat), whole_value(from_rate as nat));
    lemma_fraction_is_a_share(quotient(whole_value(i as nat), ratio));
    lemma_point_lies_between(
        input[capped(at, last) as int],
        input[capped(at + 1, last) as int],
        source_share(i as nat, from_rate, to_rate),
    );
}

/// A constant stream stays constant at another rate. The constant is finite and not
/// negative zero, of which positive zero would be made.
pub proof fn lemma_constant_stays_constant(
    input: Seq<Binary32>,
    x: Binary32,
    from_rate: u32,
    to_rate: u32,
    i: int,
)
    requires
        x.magnitude().bits < INFINITY_32,
        x.bits != SIGN_32,
        forall|k: int| 0 <= k < input.len() ==> #[trigger] input[k] == x,
        0 <= i < resampled(input, from_rate, to_rate).len(),
    ensures
        resampled(input, from_rate, to_rate)[i] == x,
{
    if input.len() > 0 && from_rate != to_rate {
        let last = (input.len() - 1) as nat;
        let at = source_frame(i as nat, from_rate, to_rate);
        let ratio = quotient(whole_value(to_rate as nat), whole_value(from_rate as nat));
        let share = source_share(i as nat, from_rate, to_rate);
        lemma_fraction_is_a_share(quotient(whole_value(i as nat), ratio));
        assert(input[capped(at, last) as int] == x && input[capped(at + 1, last) as int] == x);
        lemma_no_way_to_go(x, share);
    }
}

/// From a sample to itself every point is the sample.
proof fn lemma_no_way_to_go(x: Binary32, share: Binary32)
    requires
        x.magnitude().bits < INFINITY_32,
        x.bits != SIGN_32,
        share.bits <= ONE_BITS,
    ensures
        between(x, x, share) == x,
{
    let zero = silence();
    lemma_negated_value(x);
    assert(sum_32(x, negated(x)) == zero);
    lemma_sum_commutes(zero, share);
    lemma_zero_silences(share);
    lemma_share_lies_within(zero, share);
    assert(product_32(zero, share).bits % SIGN_32 == 0);
    assert(product_32(zero, share) == zero) by {
        crate::single::lemma_product_sign(zero, share);
    }
    lemma_rank_of_value(zero);
    lemma_rank_of_value(x);
    lemma_rank_of_sum(x, zero);
    assert(sum_32(x, zero).rank() == x.rank());
    if x.is_zero() {
        assert(x == zero);
    }
}

} // verus!
