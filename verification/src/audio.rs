//! The shape of a recorded slot: which samples it keeps, where its sound starts
//! and ends, how long it is and where it is faded.
use crate::arith::{lemma_whole_value_bounds, packed};
use crate::cli::M8_SAMPLE_RATE;
use crate::level::{peak, peak_abs, silence, Binary32};
use crate::number::{
    capped, lemma_pow2_step, lemma_whole_value_positive, product, quotient, to_53_bits, whole_part,
    whole_value, Binary64, Dyadic, INFINITY,
};
use crate::order::lemma_whole_part_of_quotient;
use vstd::arithmetic::power2::pow2;
use vstd::prelude::*;

verus! {

/// How many channels a stream is read as having.
pub open spec fn channel_count(channels: u16) -> nat {
    if channels == 0 {
        1
    } else {
        channels as nat
    }
}

/// How many channels a stream is read as having.
pub fn at_least_one(channels: u16) -> (r: usize)
    ensures
        r == channel_count(channels),
        r >= 1,
{
    if channels == 0 {
        1
    } else {
        channels as usize
    }
}

/// How many frames a length in seconds has at a sample rate: none where it is
/// negative or not a number.
pub open spec fn frames_at(length: Binary64, rate: u32) -> nat {
    if length.is_non_negative() {
        capped(length.scaled(rate as nat), usize::MAX as nat)
    } else {
        0
    }
}

/// Without a sample rate there are no frames.
pub proof fn lemma_no_rate_has_no_frames(length: Binary64)
    ensures
        frames_at(length, 0) == 0,
{
    let e = length.exponent();
    lemma_pow2_step(0);
    assert(length.mantissa() * 0 == 0);
    assert(to_53_bits(0) == 0) by {
        assert(0nat / 1 == 0 && 0nat % 1 == 0);
    }
    if e >= 0 {
        assert(0 * pow2(e as nat) == 0);
    } else {
        lemma_pow2_step((-e - 1) as nat);
        vstd::arithmetic::div_mod::lemma_basic_div(
            pow2((-e - 1) as nat) as int,
            pow2((-e) as nat) as int,
        );
    }
}

/// The frames of a length in seconds at a sample rate.
pub fn length_frames(length: Binary64, rate: u32) -> (r: usize)
    ensures
        r == frames_at(length, rate),
{
    if !length.non_negative() {
        return 0;
    }
    let n: u64 = length.scale(rate);
    if n > usize::MAX as u64 {
        usize::MAX
    } else {
        n as usize
    }
}

/// The frames that fit into so many milliseconds at the output rate.
pub open spec fn ms_frames(ms: u64) -> nat {
    capped(
        whole_part(
            quotient(
                product(whole_value(ms as nat), whole_value(M8_SAMPLE_RATE as nat)),
                whole_value(1000),
            ),
        ),
        usize::MAX as nat,
    )
}

/// A millisecond has 44.1 frames: so many of them have that many frames, without the
/// one that is begun.
pub proof fn lemma_frames_of_milliseconds(ms: u64)
    requires
        ms <= 0xFFFF_FFFF,
    ensures
        ms_frames(ms) == capped(ms as nat * 441 / 10, usize::MAX as nat),
{
    let p = ms as nat * 44_100;
    lemma_whole_value_bounds(ms as nat);
    lemma_whole_value_bounds(44_100);
    lemma_whole_value_bounds(p);
    assert(product(whole_value(ms as nat), whole_value(44_100)) == whole_value(p));
    lemma_whole_part_of_quotient(p, 1000);
    assert(p / 1000 == ms as nat * 441 / 10);
}

/// Counts the frames that fit into so many milliseconds at the output rate.
pub fn milliseconds_to_frames(ms: u64) -> (r: usize)
    ensures
        r == ms_frames(ms),
{
    proof {
        lemma_whole_value_positive(1000);
    }
    let scaled = Dyadic::from_whole(ms as u128).times(Dyadic::from_whole(M8_SAMPLE_RATE as u128));
    let n: u64 = scaled.over(Dyadic::from_whole(1000)).floor();
    if n > usize::MAX as u64 {
        usize::MAX
    } else {
        n as usize
    }
}

/// Where the last `frames` frames of an interleaved buffer start.
pub open spec fn tail_position(len: nat, channels: u16, frames: nat) -> nat {
    let samples = frames * channel_count(channels);
    if samples <= len {
        (len - samples) as nat
    } else {
        0
    }
}

/// Where the most recent `frames` frames of a buffer of `len` samples start.
pub fn tail_start(len: usize, channels: u16, frames: usize) -> (r: usize)
    ensures
        r == tail_position(len as nat, channels, frames as nat),
        r <= len,
{
    let ch: usize = at_least_one(channels);
    match frames.checked_mul(ch) {
        Some(samples) => {
            if samples <= len {
                len - samples
            } else {
                0
            }
        },
        None => 0,
    }
}

/// Peak absolute value of the most recent `frames` frames of a buffer.
pub fn tail_peak(buffer: &[Binary32], channels: u16, frames: usize) -> (r: Binary32)
    ensures
        r == peak(
            buffer@.skip(tail_position(buffer.len() as nat, channels, frames as nat) as int),
        ),
{
    let start: usize = tail_start(buffer.len(), channels, frames);
    let mut recent: Vec<Binary32> = Vec::new();
    let mut i: usize = start;
    while i < buffer.len()
        invariant
            start <= i <= buffer.len(),
            recent@ =~= buffer@.subrange(start as int, i as int),
        decreases buffer.len() - i,
    {
        recent.push(buffer[i]);
        i += 1;
    }
    assert(recent@ =~= buffer@.skip(start as int));
    peak_abs(recent.as_slice())
}

/// Whether some channel of a frame reaches a level.
pub open spec fn frame_sounds(native: Seq<Binary32>, ch: nat, f: int, threshold: Binary32) -> bool {
    exists|c: int| 0 <= c < ch && (#[trigger] native[f * ch + c]).magnitude().at_least(threshold)
}

/// The last of the first `n` frames that reaches a level.
pub open spec fn last_sound(native: Seq<Binary32>, ch: nat, threshold: Binary32, n: nat) -> Option<
    usize,
>
    decreases n,
{
    if n == 0 {
        None
    } else if frame_sounds(native, ch, n - 1, threshold) {
        Some((n - 1) as usize)
    } else {
        last_sound(native, ch, threshold, (n - 1) as nat)
    }
}

/// The last sounding frame sounds and none after it does; without one, none
/// sounds at all.
pub proof fn lemma_last_sound(native: Seq<Binary32>, ch: nat, threshold: Binary32, n: nat)
    requires
        n <= usize::MAX,
    ensures
        match last_sound(native, ch, threshold, n) {
            Some(f) => {
                &&& f < n
                &&& frame_sounds(native, ch, f as int, threshold)
                &&& forall|g: int| f < g < n ==> !#[trigger] frame_sounds(native, ch, g, threshold)
            },
            None => forall|g: int|
                0 <= g < n ==> !#[trigger] frame_sounds(native, ch, g, threshold),
        },
    decreases n,
{
    if n > 0 && !frame_sounds(native, ch, n - 1, threshold) {
        lemma_last_sound(native, ch, threshold, (n - 1) as nat);
    }
}

/// The last frame of an interleaved buffer whose level reaches `threshold`.
pub fn last_sound_frame(native: &[Binary32], channels: u16, threshold: Binary32) -> (r: Option<usize>)
    ensures
        r == last_sound(
            native@,
            channel_count(channels),
            threshold,
            native.len() as nat / channel_count(channels),
        ),
        r matches Some(f) ==> f < native.len(),
{
    let ch: usize = at_least_one(channels);
    let frames: usize = native.len() / ch;
    let ghost whole = last_sound(native@, ch as nat, threshold, frames as nat);
    let mut f: usize = frames;
    while f > 0
        invariant
            f <= frames,
            frames == native.len() / ch,
            ch == channel_count(channels),
            ch >= 1,
            whole == last_sound(native@, ch as nat, threshold, frames as nat),
            whole == last_sound(native@, ch as nat, threshold, f as nat),
        decreases f,
    {
        f -= 1;
        let mut c: usize = 0;
        proof {
            assert(f * ch + ch <= native.len()) by (nonlinear_arith)
                requires
                    f + 1 <= native.len() / ch,
                    ch >= 1,
            ;
            assert(f < native.len()) by (nonlinear_arith)
                requires
                    f * ch + ch <= native.len(),
                    ch >= 1,
            ;
        }
        while c < ch
            invariant
                c <= ch,
                f < native.len(),
                frames == native.len() / ch,
                ch == channel_count(channels),
                f * ch + ch <= native.len(),
                whole == last_sound(native@, ch as nat, threshold, frames as nat),
                whole == last_sound(native@, ch as nat, threshold, (f + 1) as nat),
                forall|d: int|
                    0 <= d < c ==> !(#[trigger] native@[f * ch + d]).magnitude().at_least(threshold),
            decreases ch - c,
        {
            if native[f * ch + c].abs().reaches(threshold) {
                assert(native@[f * ch + c].magnitude().at_least(threshold));
                assert(frame_sounds(native@, ch as nat, f as int, threshold));
                return Some(f);
            }
            c += 1;
        }
        assert(!frame_sounds(native@, ch as nat, f as int, threshold));
    }
    None
}

/// The time at which a last sounding frame has passed, in seconds.
pub open spec fn sound_end(last: Option<usize>, rate: u32) -> Binary64 {
    match last {
        Some(f) => if rate == 0 {
            Binary64 { bits: INFINITY }
        } else {
            Binary64 {
                bits: packed(quotient(whole_value((f + 1) as nat), whole_value(rate as nat))),
            }
        },
        None => Binary64 { bits: 0 },
    }
}

/// The time at which a last sounding frame has passed, in seconds.
pub fn sound_end_seconds(last: Option<usize>, rate: u32) -> (r: Binary64)
    requires
        last matches Some(f) ==> f < usize::MAX,
    ensures
        r == sound_end(last, rate),
        r.bits <= INFINITY,
{
    match last {
        Some(f) => {
            if rate == 0 {
                Binary64 { bits: INFINITY }
            } else {
                proof {
                    lemma_whole_value_positive((f + 1) as nat);
                    lemma_whole_value_positive(rate as nat);
                }
                let end = Dyadic::from_whole((f + 1) as u128);
                end.over(Dyadic::from_whole(rate as u128)).pack()
            }
        },
        None => Binary64 { bits: 0 },
    }
}

/// The time at which the last sounding frame of a buffer has passed, in seconds.
pub open spec fn tail_end(native: Seq<Binary32>, rate: u32, channels: u16, threshold: Binary32) -> Binary64 {
    sound_end(
        last_sound(
            native,
            channel_count(channels),
            threshold,
            native.len() / channel_count(channels),
        ),
        rate,
    )
}

/// Time (seconds) of the last frame whose level reaches `threshold` in an
/// interleaved native-rate buffer. Zero if the buffer is entirely below it.
pub fn last_sound_seconds(
    native: &[Binary32],
    rate: u32,
    channels: u16,
    threshold: Binary32,
) -> (r: Binary64)
    ensures
        r == tail_end(native@, rate, channels, threshold),
        r.bits <= INFINITY,
{
    let last = last_sound_frame(native, channels, threshold);
    sound_end_seconds(last, rate)
}

/// One channel of an interleaved buffer.
pub open spec fn channel_stream(native: Seq<Binary32>, ch: nat, c: nat) -> Seq<Binary32> {
    Seq::new(native.len() / ch, |f: int| native[f * ch + c])
}

/// The streams that a list of channels holds.
pub open spec fn streams(channels: Seq<Vec<Binary32>>) -> Seq<Seq<Binary32>> {
    channels.map_values(|v: Vec<Binary32>| v@)
}

/// Takes one channel out of an interleaved buffer.
fn take_channel(native: &[Binary32], ch: usize, c: usize) -> (r: Vec<Binary32>)
    requires
        c < ch,
    ensures
        r@ == channel_stream(native@, ch as nat, c as nat),
{
    let frames: usize = native.len() / ch;
    let mut out: Vec<Binary32> = Vec::new();
    let mut f: usize = 0;
    while f < frames
        invariant
            f <= frames,
            frames == native.len() / ch,
            c < ch,
            out@ =~= channel_stream(native@, ch as nat, c as nat).take(f as int),
        decreases frames - f,
    {
        proof {
            assert(f * ch + ch <= native.len()) by (nonlinear_arith)
                requires
                    f + 1 <= native.len() / ch,
                    ch >= 1,
            ;
        }
        out.push(native[f * ch + c]);
        f += 1;
    }
    assert(out@ =~= channel_stream(native@, ch as nat, c as nat));
    out
}

/// Left and right of a capture: its first two channels, or a mono source twice.
pub fn stereo_streams(native: &[Binary32], native_channels: u16) -> (r: Vec<Vec<Binary32>>)
    ensures
        ({
            let ch = channel_count(native_channels);
            streams(r@) == seq![
                channel_stream(native@, ch, 0),
                channel_stream(
                    native@,
                    ch,
                    if ch >= 2 {
                        1
                    } else {
                        0
                    },
                ),
            ]
        }),
{
    let ch: usize = at_least_one(native_channels);
    let left = take_channel(native, ch, 0);
    let right = take_channel(
        native,
        ch,
        if ch >= 2 {
            1
        } else {
            0
        },
    );
    let mut out: Vec<Vec<Binary32>> = Vec::new();
    out.push(left);
    out.push(right);
    assert(streams(out@) =~= seq![left@, right@]);
    out
}

/// Whether some channel has a frame `f` that reaches a level.
pub open spec fn onset_at(channels: Seq<Seq<Binary32>>, threshold: Binary32, f: int) -> bool {
    exists|c: int|
        0 <= c < channels.len() && f < (#[trigger] channels[c]).len()
            && channels[c][f].magnitude().at_least(threshold)
}

/// Whether a level is greater than zero.
pub open spec fn is_level(threshold: Binary32) -> bool {
    !threshold.is_nan() && threshold.rank() > 0
}

/// Whether `start` is the first frame that a slot keeps: `lookback` frames before
/// its sound starts, or the very first where trimming is off, where there is no
/// sound, or where the sound starts earlier than that.
pub open spec fn is_slot_start(
    channels: Seq<Seq<Binary32>>,
    threshold: Binary32,
    lookback: nat,
    start: nat,
) -> bool {
    ||| !is_level(threshold) && start == 0
    ||| is_level(threshold) && start == 0 && forall|f: int| f >= 0 ==> !onset_at(channels, threshold, f)
    ||| is_level(threshold) && exists|f: int|
        {
            &&& f >= 0
            &&& #[trigger] onset_at(channels, threshold, f)
            &&& forall|g: int| 0 <= g < f ==> !onset_at(channels, threshold, g)
            &&& start == (if f >= lookback {
                f - lookback
            } else {
                0
            })
        }
}

/// The first frame that a slot keeps.
pub open spec fn slot_start(channels: Seq<Seq<Binary32>>, threshold: Binary32, lookback: nat) -> nat {
    choose|start: nat| is_slot_start(channels, threshold, lookback, start)
}

/// There is one first frame that a slot keeps.
pub proof fn lemma_slot_start_is_unique(
    channels: Seq<Seq<Binary32>>,
    threshold: Binary32,
    lookback: nat,
    start: nat,
)
    requires
        is_slot_start(channels, threshold, lookback, start),
    ensures
        start == slot_start(channels, threshold, lookback),
{
    let other = slot_start(channels, threshold, lookback);
    assert(is_slot_start(channels, threshold, lookback, other));
    if is_level(threshold) && exists|f: int| f >= 0 && onset_at(channels, threshold, f) {
        let f = choose|f: int|
            {
                &&& f >= 0
                &&& #[trigger] onset_at(channels, threshold, f)
                &&& forall|g: int| 0 <= g < f ==> !onset_at(channels, threshold, g)
                &&& start == (if f >= lookback {
                    f - lookback
                } else {
                    0
                })
            };
        let g = choose|g: int|
            {
                &&& g >= 0
                &&& #[trigger] onset_at(channels, threshold, g)
                &&& forall|h: int| 0 <= h < g ==> !onset_at(channels, threshold, h)
                &&& other == (if g >= lookback {
                    g - lookback
                } else {
                    0
                })
            };
        assert(f == g);
    }
}

/// Whether some channel reaches a level in frame `f`.
fn sounds_at(channels: &Vec<Vec<Binary32>>, threshold: Binary32, f: usize) -> (r: bool)
    ensures
        r == onset_at(streams(channels@), threshold, f as int),
{
    let ghost all = streams(channels@);
    let mut c: usize = 0;
    while c < channels.len()
        invariant
            c <= channels.len(),
            all == streams(channels@),
            forall|d: int|
                0 <= d < c ==> !(f < (#[trigger] all[d]).len() && all[d][f as int].magnitude().at_least(
                    threshold,
                )),
        decreases channels.len() - c,
    {
        assert(all[c as int] == channels[c as int]@);
        if f < channels[c].len() && channels[c][f].abs().reaches(threshold) {
            return true;
        }
        c += 1;
    }
    false
}

/// The length of the longest channel.
fn longest(channels: &Vec<Vec<Binary32>>) -> (r: usize)
    ensures
        forall|c: int| 0 <= c < channels.len() ==> (#[trigger] streams(channels@)[c]).len() <= r,
{
    let mut len: usize = 0;
    let mut c: usize = 0;
    while c < channels.len()
        invariant
            c <= channels.len(),
            forall|d: int| 0 <= d < c ==> (#[trigger] streams(channels@)[d]).len() <= len,
        decreases channels.len() - c,
    {
        assert(streams(channels@)[c as int] == channels[c as int]@);
        if channels[c].len() > len {
            len = channels[c].len();
        }
        c += 1;
    }
    len
}

/// The first frame that a slot keeps: everything before the first frame reaching
/// `threshold`, minus `lookback` frames, is dropped. A threshold of zero disables
/// trimming.
pub fn slot_start_frame(channels: &Vec<Vec<Binary32>>, threshold: Binary32, lookback: usize) -> (r:
    usize)
    ensures
        is_slot_start(streams(channels@), threshold, lookback as nat, r as nat),
{
    if threshold.bits == 0 || threshold.bits > 0x7F80_0000 {
        return 0;
    }
    let len: usize = longest(channels);
    let ghost all = streams(channels@);
    let mut f: usize = 0;
    while f < len
        invariant
            f <= len,
            all == streams(channels@),
            is_level(threshold),
            forall|g: int| 0 <= g < f ==> !onset_at(all, threshold, g),
            forall|c: int| 0 <= c < channels.len() ==> (#[trigger] all[c]).len() <= len,
        decreases len - f,
    {
        if sounds_at(channels, threshold, f) {
            return if f >= lookback {
                f - lookback
            } else {
                0
            };
        }
        f += 1;
    }
    assert forall|g: int| g >= 0 implies !onset_at(all, threshold, g) by {}
    0
}

/// Channels from frame `start` on, interleaved and exactly `frames` long: silence
/// where a channel has ended.
pub open spec fn interleaved(channels: Seq<Seq<Binary32>>, start: nat, frames: nat) -> Seq<Binary32> {
    Seq::new(
        frames * channels.len(),
        |k: int|
            {
                let c = channels[k % channels.len() as int];
                let at = start + k / channels.len() as int;
                if at < c.len() {
                    c[at]
                } else {
                    silence()
                }
            },
    )
}

/// Interleaves channels from frame `start` on and forces exactly `frames` frames,
/// padding with silence or cutting off.
pub fn interleave(channels: &Vec<Vec<Binary32>>, start: usize, frames: usize) -> (r: Vec<Binary32>)
    requires
        frames * channels.len() <= usize::MAX,
    ensures
        r@ == interleaved(streams(channels@), start as nat, frames as nat),
        r.len() == frames * channels.len(),
{
    let ghost all = streams(channels@);
    let ghost whole = interleaved(all, start as nat, frames as nat);
    let oc: usize = channels.len();
    let mut out: Vec<Binary32> = Vec::new();
    let mut f: usize = 0;
    while f < frames
        invariant
            f <= frames,
            oc == channels.len(),
            all == streams(channels@),
            whole == interleaved(all, start as nat, frames as nat),
            out.len() == f * oc,
            out@ =~= whole.take(f * oc),
        decreases frames - f,
    {
        let mut c: usize = 0;
        proof {
            assert((f + 1) * oc == f * oc + oc) by (nonlinear_arith);
            assert((f + 1) * oc <= frames * oc) by (nonlinear_arith)
                requires
                    f + 1 <= frames,
            ;
        }
        while c < oc
            invariant
                c <= oc,
                f < frames,
                oc == channels.len(),
                f * oc + oc <= frames * oc,
                all == streams(channels@),
                whole == interleaved(all, start as nat, frames as nat),
                out.len() == f * oc + c,
                out@ =~= whole.take(f * oc + c),
            decreases oc - c,
        {
            let in_range: bool = start < channels[c].len() && f < channels[c].len() - start;
            let sample = if in_range {
                channels[c][start + f]
            } else {
                Binary32 { bits: 0 }
            };
            proof {
                let k = f * oc + c;
                vstd::arithmetic::div_mod::lemma_fundamental_div_mod_converse(
                    k,
                    oc as int,
                    f as int,
                    c as int,
                );
                assert(all[c as int] == channels[c as int]@);
                assert(whole[k] == sample);
                assert(whole.take(k + 1) =~= whole.take(k).push(whole[k]));
            }
            out.push(sample);
            c += 1;
        }
        f += 1;
    }
    assert(whole.take(f * oc) =~= whole);
    out
}

/// The samples of a finished slot: channels from the start of their sound on,
/// interleaved, as long as every slot.
pub fn shape_slot(
    channels: &Vec<Vec<Binary32>>,
    slot_length: Binary64,
    onset_threshold: Binary32,
    lookback_frames: usize,
) -> (r: Vec<Binary32>)
    requires
        frames_at(slot_length, M8_SAMPLE_RATE) * channels.len() <= usize::MAX,
    ensures
        r.len() == frames_at(slot_length, M8_SAMPLE_RATE) * channels.len(),
        r@ == interleaved(
            streams(channels@),
            slot_start(streams(channels@), onset_threshold, lookback_frames as nat),
            frames_at(slot_length, M8_SAMPLE_RATE),
        ),
{
    let frames: usize = length_frames(slot_length, M8_SAMPLE_RATE);
    let start: usize = slot_start_frame(channels, onset_threshold, lookback_frames);
    proof {
        lemma_slot_start_is_unique(
            streams(channels@),
            onset_threshold,
            lookback_frames as nat,
            start as nat,
        );
    }
    interleave(channels, start, frames)
}

/// The peak from which a recorded slot counts as sounding, as a binary32 pattern.
pub const SLOT_FLOOR: u32 = 0x38D1_B717;

/// The status of a recorded slot.
pub open spec fn slot_status_text(samples: Seq<Binary32>) -> Seq<char> {
    if peak(samples).at_least(Binary32 { bits: SLOT_FLOOR }) {
        "rendered"@
    } else {
        "silent"@
    }
}

/// The status of a recorded slot: `rendered` or `silent`.
pub fn slot_status(samples: &[Binary32]) -> (r: String)
    ensures
        r@ == slot_status_text(samples@),
{
    if peak_abs(samples).reaches(Binary32 { bits: SLOT_FLOOR }) {
        "rendered".to_string()
    } else {
        "silent".to_string()
    }
}

/// The samples of slot `i` in a buffer of `len` samples whose slots have `frames`
/// frames of `ch` channels: from the first to before the second.
pub open spec fn slot_window(i: nat, frames: nat, ch: nat, len: nat) -> (nat, nat) {
    (capped(i * frames * ch, len), capped((i + 1) * frames * ch, len))
}

/// `i * frames * ch`, at most `len`.
fn capped_product(i: u64, frames: usize, ch: usize, len: usize) -> (r: usize)
    ensures
        r == capped(i as nat * frames as nat * ch as nat, len as nat),
{
    proof {
        assert(i * frames <= 0xFFFF_FFFF_FFFF_FFFF * 0xFFFF_FFFF_FFFF_FFFF) by (nonlinear_arith)
            requires
                i <= 0xFFFF_FFFF_FFFF_FFFF,
                frames <= 0xFFFF_FFFF_FFFF_FFFF,
        ;
    }
    let part: u128 = i as u128 * frames as u128;
    if ch == 0 {
        assert(part * 0 == 0);
        0
    } else if part > len as u128 {
        proof {
            assert(part * ch >= part) by (nonlinear_arith)
                requires
                    ch >= 1,
            ;
        }
        len
    } else {
        proof {
            assert(part * ch <= 0xFFFF_FFFF_FFFF_FFFF * 0xFFFF_FFFF_FFFF_FFFF) by (nonlinear_arith)
                requires
                    part <= 0xFFFF_FFFF_FFFF_FFFF,
                    ch <= 0xFFFF_FFFF_FFFF_FFFF,
            ;
        }
        let all: u128 = part * ch as u128;
        if all > len as u128 {
            len
        } else {
            all as usize
        }
    }
}

/// The samples of slot `i` in a rendered buffer of `len` samples.
pub fn slot_range(i: usize, frames: usize, channels: u16, len: usize) -> (r: (usize, usize))
    requires
        i < usize::MAX,
    ensures
        (r.0 as nat, r.1 as nat) == slot_window(
            i as nat,
            frames as nat,
            channel_count(channels),
            len as nat,
        ),
        r.0 <= r.1 <= len,
{
    let ch: usize = at_least_one(channels);
    proof {
        assert((i + 1) * frames * ch >= i * frames * ch) by (nonlinear_arith)
            requires
                i >= 0,
                frames >= 0,
                ch >= 1,
        ;
    }
    (capped_product(i as u64, frames, ch, len), capped_product(i as u64 + 1, frames, ch, len))
}

} // verus!
