//! What a finished slot keeps of the sound that it is made of: which sample of a
//! capture, or of a rendered chain, lies at which place of the slot.
use crate::audio::{
    channel_stream, frames_at, is_level, is_slot_start, lemma_frames_of_milliseconds,
    lemma_slot_start_is_unique, ms_frames, onset_at,
};
use crate::chain::{faded, recorded_slot};
use crate::cli::RenderArgs;
use crate::level::{silence, Binary32, INFINITY_32, SIGN_32};
use crate::number::{lemma_pow2_step, Binary64};
use crate::signal::{
    finalized, mean_32, mono_stream, resampled, slot_channels, start_faded, total_32,
};
use crate::single::{
    lemma_rank_of_sum, lemma_rank_of_value, lemma_single_scales, lemma_small_wholes_are_exact,
    lemma_values_are_kept, quotient_32, sum_32, whole_32,
};
use vstd::arithmetic::power2::pow2;
use vstd::prelude::*;

verus! {

/// Whether one of the first `heard` channels of a frame reaches a level.
pub open spec fn is_loud(native: Seq<Binary32>, ch: int, heard: int, level: Binary32, f: int) -> bool {
    exists|c: int| 0 <= c < heard && (#[trigger] native[f * ch + c]).magnitude().at_least(level)
}

/// Whether frame `o` is the first of a capture in which one of the first `heard`
/// channels reaches a level.
pub open spec fn is_first_loud(
    native: Seq<Binary32>,
    ch: int,
    heard: int,
    level: Binary32,
    o: int,
) -> bool {
    &&& 0 <= o < native.len() as int / ch
    &&& is_loud(native, ch, heard, level, o)
    &&& forall|g: int| 0 <= g < o ==> !#[trigger] is_loud(native, ch, heard, level, g)
}

/// Whether a slot of a capture at the output rate starts at frame `start`: as many
/// frames as the lookback before the first loud one, and at the beginning without a
/// level, without a loud frame, and where the lookback reaches further back.
pub open spec fn starts_at(
    native: Seq<Binary32>,
    ch: int,
    heard: int,
    level: Binary32,
    lookback: nat,
    start: nat,
) -> bool {
    if level.is_nan() || level.rank() <= 0 {
        start == 0
    } else {
        ||| exists|o: int|
            #[trigger] is_first_loud(native, ch, heard, level, o) && start == (if o >= lookback {
                o - lookback
            } else {
                0
            })
        ||| start == 0 && forall|g: int|
            0 <= g < native.len() as int / ch ==> !#[trigger] is_loud(native, ch, heard, level, g)
    }
}

/// How many channels of a capture a stereo slot is made of.
pub open spec fn heard_in_stereo(ch: int) -> int {
    if ch >= 2 {
        2
    } else {
        1
    }
}

/// Whether a sample is a finite number other than negative zero.
pub open spec fn is_ordinary(x: Binary32) -> bool {
    x.magnitude().bits < INFINITY_32 && x.bits != SIGN_32
}

/// The samples of a slot, by the frame and the channel of what it is made of.
pub(crate) proof fn lemma_slot_sample(
    channels: Seq<Seq<Binary32>>,
    slot_length: Binary64,
    level: Binary32,
    lookback: nat,
    start: nat,
    f: int,
    c: int,
)
    requires
        is_slot_start(channels, level, lookback, start),
        0 <= f < frames_at(slot_length, 44_100),
        0 <= c < channels.len(),
    ensures
        ({
            let r = finalized(channels, slot_length, level, lookback);
            let k = f * channels.len() + c;
            &&& r.len() == frames_at(slot_length, 44_100) * channels.len()
            &&& 0 <= k < r.len()
            &&& r[k] == (if start + f < channels[c].len() {
                channels[c][start + f]
            } else {
                silence()
            })
        }),
{
    let n = channels.len() as int;
    let frames = frames_at(slot_length, 44_100) as int;
    let k = f * n + c;
    lemma_slot_start_is_unique(channels, level, lookback, start);
    vstd::arithmetic::div_mod::lemma_fundamental_div_mod_converse(k, n, f, c);
    assert(0 <= k < frames * n) by (nonlinear_arith)
        requires
            0 <= f < frames,
            0 <= c < n,
            k == f * n + c,
    ;
}

/// Whether channels are those of a capture: the first `heard` ones in order, and
/// then the last of them again.
spec fn are_streams(native: Seq<Binary32>, ch: nat, heard: int, channels: Seq<Seq<Binary32>>) -> bool {
    &&& 1 <= heard <= channels.len()
    &&& forall|c: int|
        0 <= c < channels.len() ==> #[trigger] channels[c] == channel_stream(
            native,
            ch,
            if c < heard {
                c as nat
            } else {
                (heard - 1) as nat
            },
        )
}

/// The streams of a capture are loud where the capture is.
proof fn lemma_streams_are_loud(
    native: Seq<Binary32>,
    ch: nat,
    heard: int,
    channels: Seq<Seq<Binary32>>,
    level: Binary32,
    f: int,
)
    requires
        ch >= 1,
        f >= 0,
        are_streams(native, ch, heard, channels),
    ensures
        onset_at(channels, level, f) <==> f < native.len() / ch && is_loud(
            native,
            ch as int,
            heard,
            level,
            f,
        ),
{
    if f < native.len() / ch && is_loud(native, ch as int, heard, level, f) {
        let d = choose|d: int|
            0 <= d < heard && (#[trigger] native[f * ch as int + d]).magnitude().at_least(level);
        assert(channels[d] == channel_stream(native, ch, d as nat));
        assert(channels[d][f] == native[f * ch as int + d]);
    }
    if onset_at(channels, level, f) {
        let c = choose|c: int|
            0 <= c < channels.len() && f < (#[trigger] channels[c]).len()
                && channels[c][f].magnitude().at_least(level);
        let d = if c < heard {
            c
        } else {
            heard - 1
        };
        assert(channels[c] == channel_stream(native, ch, d as nat));
        assert(native[f * ch as int + d].magnitude().at_least(level));
    }
}

/// The start of a slot by its streams is the start by its capture.
proof fn lemma_starts_agree(
    native: Seq<Binary32>,
    ch: nat,
    heard: int,
    channels: Seq<Seq<Binary32>>,
    level: Binary32,
    lookback: nat,
    start: nat,
)
    requires
        ch >= 1,
        are_streams(native, ch, heard, channels),
        starts_at(native, ch as int, heard, level, lookback, start),
    ensures
        is_slot_start(channels, level, lookback, start),
{
    assert forall|f: int| f >= 0 implies (#[trigger] onset_at(channels, level, f) <==> f < native.len()
        / ch && is_loud(native, ch as int, heard, level, f)) by {
        lemma_streams_are_loud(native, ch, heard, channels, level, f);
    }
    if is_level(level) {
        if exists|o: int| is_first_loud(native, ch as int, heard, level, o) && start == (if o >= lookback {
            o - lookback
        } else {
            0
        }) {
            let o = choose|o: int|
                #[trigger] is_first_loud(native, ch as int, heard, level, o) && start == (if o
                    >= lookback {
                    o - lookback
                } else {
                    0
                });
            assert(onset_at(channels, level, o));
            assert forall|g: int| 0 <= g < o implies !onset_at(channels, level, g) by {
                assert(!is_loud(native, ch as int, heard, level, g));
            }
        } else {
            assert forall|g: int| g >= 0 implies !onset_at(channels, level, g) by {
                if g < native.len() / ch {
                    assert(!is_loud(native, ch as int, heard, level, g));
                }
            }
        }
    }
}

/// A stereo slot of a capture at the output rate holds the left and the right
/// channel of the capture, frame by frame from where it starts, and silence behind
/// its end. A capture of one channel is heard on both sides.
pub proof fn lemma_stereo_slot_is_the_capture(
    native: Seq<Binary32>,
    native_channels: u16,
    out_channels: u16,
    slot_length: Binary64,
    level: Binary32,
    lookback: nat,
    start: nat,
    f: int,
)
    requires
        native_channels >= 1,
        out_channels >= 2,
        starts_at(
            native,
            native_channels as int,
            heard_in_stereo(native_channels as int),
            level,
            lookback,
            start,
        ),
        0 <= f < frames_at(slot_length, 44_100),
    ensures
        ({
            let ch = native_channels as int;
            let r = finalized(
                slot_channels(native, 44_100, native_channels, out_channels),
                slot_length,
                level,
                lookback,
            );
            let (left, right) = (r[2 * f], r[2 * f + 1]);
            &&& r.len() == 2 * frames_at(slot_length, 44_100)
            &&& start + f < native.len() as int / ch ==> left == native[(start + f) * ch]
            &&& start + f < native.len() as int / ch && ch >= 2 ==> right == native[(start + f) * ch
                + 1]
            &&& start + f < native.len() as int / ch && ch == 1 ==> right == native[start + f]
            &&& start + f >= native.len() as int / ch ==> left.bits == 0 && right.bits == 0
        }),
{
    let ch = native_channels as nat;
    let channels = slot_channels(native, 44_100, native_channels, out_channels);
    let heard = heard_in_stereo(native_channels as int);
    assert(channels[0] == channel_stream(native, ch, 0));
    assert(channels[1] == channel_stream(native, ch, (heard - 1) as nat));
    lemma_starts_agree(native, ch, heard, channels, level, lookback, start);
    lemma_slot_sample(channels, slot_length, level, lookback, start, f, 0);
    lemma_slot_sample(channels, slot_length, level, lookback, start, f, 1);
    assert(f * channels.len() == 2 * f);
}

/// The mean of one sample is the sample.
proof fn lemma_mean_of_one(x: Binary32)
    requires
        is_ordinary(x),
    ensures
        mean_32(seq![x]) == x,
{
    let zero = silence();
    let one = whole_32(1);
    let frame = seq![x];
    assert(frame.drop_last() =~= Seq::<Binary32>::empty());
    assert(total_32(frame.drop_last()) == zero);
    lemma_rank_of_value(x);
    lemma_rank_of_value(zero);
    lemma_rank_of_sum(zero, x);
    let sum = sum_32(zero, x);
    assert(sum.rank() == x.rank());
    assert(sum == x);
    lemma_small_wholes_are_exact(1);
    lemma_values_are_kept(x);
    lemma_pow2_step(149);
    lemma_single_scales(x.grains(), 1, pow2(149));
    assert(1 * pow2(149) == pow2(149));
    assert(one.bits != 0) by {
        if one.bits == 0 {
            lemma_rank_of_value(one);
        }
    }
    assert(quotient_32(x, one) == x);
}

/// A mono slot of a capture of one channel at the output rate holds the capture,
/// frame by frame from where it starts, and silence behind its end.
pub proof fn lemma_mono_slot_is_the_capture(
    native: Seq<Binary32>,
    native_channels: u16,
    out_channels: u16,
    slot_length: Binary64,
    level: Binary32,
    lookback: nat,
    start: nat,
    f: int,
)
    requires
        native_channels <= 1,
        out_channels <= 1,
        are_ordinary(native),
        starts_at(native, 1, 1, level, lookback, start),
        0 <= f < frames_at(slot_length, 44_100),
    ensures
        ({
            let r = finalized(
                slot_channels(native, 44_100, native_channels, out_channels),
                slot_length,
                level,
                lookback,
            );
            &&& r.len() == frames_at(slot_length, 44_100)
            &&& start + f < native.len() ==> r[f] == native[start + f]
            &&& start + f >= native.len() ==> r[f].bits == 0
        }),
{
    let channels = slot_channels(native, 44_100, native_channels, out_channels);
    let mono = mono_stream(native, 1);
    assert(native.len() / 1 == native.len());
    assert forall|i: int| 0 <= i < native.len() implies mono[i] == #[trigger] native[i] by {
        assert(native.subrange(i * 1, i * 1 + 1) =~= seq![native[i]]);
        lemma_mean_of_one(native[i]);
    }
    assert(mono =~= native);
    assert(channel_stream(native, 1, 0) =~= native);
    assert(channels =~= seq![native]);
    lemma_starts_agree(native, 1, 1, channels, level, lookback, start);
    lemma_slot_sample(channels, slot_length, level, lookback, start, f, 0);
    assert(f * channels.len() == f);
}

/// The first two streams of a capture hold the first and the second sample of every
/// frame.
proof fn lemma_sides_are_channels(native: Seq<Binary32>, native_channels: u16)
    requires
        native_channels >= 2,
    ensures
        ({
            let ch = native_channels as int;
            let frames = native.len() / native_channels as nat;
            &&& channel_stream(native, native_channels as nat, 0) == Seq::new(
                frames,
                |g: int| native[g * ch],
            )
            &&& channel_stream(native, native_channels as nat, 1) == Seq::new(
                frames,
                |g: int| native[g * ch + 1],
            )
        }),
{
    let ch = native_channels as int;
    let frames = native.len() / native_channels as nat;
    assert(channel_stream(native, ch as nat, 0) =~= Seq::new(frames, |g: int| native[g * ch]));
    assert(channel_stream(native, ch as nat, 1) =~= Seq::new(frames, |g: int| native[g * ch + 1]));
}

/// A stereo slot of a capture at any rate holds its left and its right channel, each
/// brought to the output rate by itself, where nothing is trimmed.
pub proof fn lemma_stereo_slot_is_resampled(
    native: Seq<Binary32>,
    native_rate: u32,
    native_channels: u16,
    out_channels: u16,
    slot_length: Binary64,
    level: Binary32,
    lookback: nat,
    f: int,
)
    requires
        native_channels >= 2,
        out_channels >= 2,
        level.is_nan() || level.rank() <= 0,
        0 <= f < frames_at(slot_length, 44_100),
    ensures
        ({
            let ch = native_channels as int;
            let frames = native.len() / native_channels as nat;
            let left = resampled(Seq::new(frames, |g: int| native[g * ch]), native_rate, 44_100);
            let right = resampled(Seq::new(frames, |g: int| native[g * ch + 1]), native_rate, 44_100);
            let r = finalized(
                slot_channels(native, native_rate, native_channels, out_channels),
                slot_length,
                level,
                lookback,
            );
            &&& r.len() == 2 * frames_at(slot_length, 44_100)
            &&& r[2 * f] == (if f < left.len() {
                left[f]
            } else {
                silence()
            })
            &&& r[2 * f + 1] == (if f < right.len() {
                right[f]
            } else {
                silence()
            })
        }),
{
    let channels = slot_channels(native, native_rate, native_channels, out_channels);
    lemma_sides_are_channels(native, native_channels);
    lemma_slot_sample(channels, slot_length, level, lookback, 0, f, 0);
    lemma_slot_sample(channels, slot_length, level, lookback, 0, f, 1);
    assert(f * channels.len() == 2 * f);
}

/// A mono slot of a capture at any rate holds the means of its frames, brought to
/// the output rate, where nothing is trimmed.
pub proof fn lemma_mono_slot_is_resampled(
    native: Seq<Binary32>,
    native_rate: u32,
    native_channels: u16,
    out_channels: u16,
    slot_length: Binary64,
    level: Binary32,
    lookback: nat,
    f: int,
)
    requires
        native_channels >= 1,
        out_channels <= 1,
        level.is_nan() || level.rank() <= 0,
        0 <= f < frames_at(slot_length, 44_100),
    ensures
        ({
            let ch = native_channels as int;
            let means = Seq::new(
                native.len() / native_channels as nat,
                |g: int| mean_32(Seq::new(native_channels as nat, |c: int| native[g * ch + c])),
            );
            let mono = resampled(means, native_rate, 44_100);
            let r = finalized(
                slot_channels(native, native_rate, native_channels, out_channels),
                slot_length,
                level,
                lookback,
            );
            &&& r.len() == frames_at(slot_length, 44_100)
            &&& r[f] == (if f < mono.len() {
                mono[f]
            } else {
                silence()
            })
        }),
{
    let channels = slot_channels(native, native_rate, native_channels, out_channels);
    lemma_means_of_frames(native, native_channels as nat);
    lemma_slot_sample(channels, slot_length, level, lookback, 0, f, 0);
    assert(f * channels.len() == f);
}

/// A mono stream holds the mean of each frame.
proof fn lemma_means_of_frames(native: Seq<Binary32>, n: nat)
    requires
        n >= 1,
    ensures
        mono_stream(native, n) == Seq::new(
            native.len() / n,
            |g: int| mean_32(Seq::new(n, |c: int| native[g * n as int + c])),
        ),
{
    let means = Seq::new(
        native.len() / n,
        |g: int| mean_32(Seq::new(n, |c: int| native[g * n as int + c])),
    );
    let mono = mono_stream(native, n);
    assert forall|g: int| 0 <= g < means.len() implies mono[g] == #[trigger] means[g] by {
        let at = g * n as int;
        assert(at >= 0 && at + n <= native.len()) by (nonlinear_arith)
            requires
                0 <= g,
                g + 1 <= native.len() / n,
                n >= 1,
                at == g * n as int,
        ;
        assert(native.subrange(at, at + n) =~= Seq::new(n, |c: int| native[at + c]));
        assert(Seq::new(n, |c: int| native[at + c]) =~= Seq::new(n, |c: int| native[g * n as int + c]));
    }
    assert(mono =~= means);
}

/// Whether every sample is a finite number other than negative zero.
pub open spec fn are_ordinary(native: Seq<Binary32>) -> bool {
    forall|i: int| 0 <= i < native.len() ==> is_ordinary(#[trigger] native[i])
}

/// Whether a stereo slot holds a capture at the output rate, in the frames from `from` to
/// before `to`: on the left its first channel and on the right its second one, or its
/// only one on both sides, frame by frame from where the slot starts.
pub open spec fn keeps_sides(
    r: Seq<Binary32>,
    native: Seq<Binary32>,
    native_channels: u16,
    from: int,
    to: int,
    level: Binary32,
    lookback: nat,
) -> bool {
    let ch = native_channels as int;
    forall|start: nat, f: int|
        #![trigger starts_at(native, ch, heard_in_stereo(ch), level, lookback, start), r[2 * f]]
        starts_at(native, ch, heard_in_stereo(ch), level, lookback, start) && from <= f < to && start
            + f < native.len() as int / ch ==> {
            let at = (start + f) * ch;
            &&& r[2 * f] == native[at]
            &&& r[2 * f + 1] == native[at + (if native_channels >= 2 {
                1int
            } else {
                0
            })]
        }
}

/// Whether a mono slot holds a capture of one channel at the output rate, in the frames
/// from `from` to before `to`, frame by frame from where the slot starts.
pub open spec fn keeps_channel(
    r: Seq<Binary32>,
    native: Seq<Binary32>,
    from: int,
    to: int,
    level: Binary32,
    lookback: nat,
) -> bool {
    forall|start: nat, f: int|
        #![trigger starts_at(native, 1, 1, level, lookback, start), r[f]]
        starts_at(native, 1, 1, level, lookback, start) && from <= f < to && start + f < native.len()
            ==> r[f] == native[start + f]
}

/// Whether a slot holds a capture at the output rate, in the frames from `from` to before
/// `to`: a stereo slot its sides, a mono slot its only channel.
pub open spec fn keeps_capture(
    r: Seq<Binary32>,
    native: Seq<Binary32>,
    native_channels: u16,
    out_channels: u16,
    from: int,
    to: int,
    level: Binary32,
    lookback: nat,
) -> bool {
    &&& native_channels >= 1 && out_channels >= 2 ==> keeps_sides(
        r,
        native,
        native_channels,
        from,
        to,
        level,
        lookback,
    )
    &&& native_channels == 1 && out_channels == 1 && are_ordinary(native) ==> keeps_channel(
        r,
        native,
        from,
        to,
        level,
        lookback,
    )
}

/// What the slots of a capture at the output rate hold, for every frame of them.
pub(crate) proof fn lemma_slots_are_captures(
    native: Seq<Binary32>,
    native_channels: u16,
    out_channels: u16,
    slot_length: Binary64,
    level: Binary32,
    lookback: nat,
)
    ensures
        keeps_capture(
            finalized(
                slot_channels(native, 44_100, native_channels, out_channels),
                slot_length,
                level,
                lookback,
            ),
            native,
            native_channels,
            out_channels,
            0,
            frames_at(slot_length, 44_100) as int,
            level,
            lookback,
        ),
{
    let ch = native_channels as int;
    let r = finalized(
        slot_channels(native, 44_100, native_channels, out_channels),
        slot_length,
        level,
        lookback,
    );
    if native_channels >= 1 && out_channels >= 2 {
        assert forall|start: nat, f: int|
            #![trigger starts_at(native, ch, heard_in_stereo(ch), level, lookback, start), r[2 * f]]
            starts_at(native, ch, heard_in_stereo(ch), level, lookback, start) && 0 <= f < frames_at(
                slot_length,
                44_100,
            ) && start + f < native.len() as int / ch implies {
            let at = (start + f) * ch;
            &&& r[2 * f] == native[at]
            &&& r[2 * f + 1] == native[at + (if native_channels >= 2 {
                1int
            } else {
                0
            })]
        } by {
            lemma_stereo_slot_is_the_capture(
                native,
                native_channels,
                out_channels,
                slot_length,
                level,
                lookback,
                start,
                f,
            );
        }
    }
    if native_channels == 1 && out_channels == 1 && are_ordinary(native) {
        assert forall|start: nat, f: int|
            #![trigger starts_at(native, 1, 1, level, lookback, start), r[f]]
            starts_at(native, 1, 1, level, lookback, start) && 0 <= f < frames_at(
                slot_length,
                44_100,
            ) && start + f < native.len() implies r[f] == native[start + f] by {
            lemma_mono_slot_is_the_capture(
                native,
                native_channels,
                out_channels,
                slot_length,
                level,
                lookback,
                start,
                f,
            );
        }
    }
}

/// Fades leave alone what lies between them, and are silent at the ends of a slot.
pub(crate) proof fn lemma_faded_sample(
    slot: Seq<Binary32>,
    out_channels: u16,
    frames: nat,
    fade_in: nat,
    fade_out: nat,
    f: int,
    c: int,
)
    requires
        1 <= out_channels,
        slot.len() == frames * out_channels,
        slot.len() <= usize::MAX,
        0 <= f < frames,
        0 <= c < out_channels,
    ensures
        ({
            let k = f * out_channels + c;
            let r = faded(slot, out_channels, fade_in, fade_out);
            &&& r.len() == slot.len()
            &&& 0 <= k < slot.len()
            &&& fade_in <= f < frames - fade_out ==> r[k] == slot[k]
            &&& fade_in >= 1 && f == 0 && fade_out < frames && slot[k].magnitude().bits
                < INFINITY_32 ==> r[k].is_zero()
            &&& fade_out >= 1 && f == frames - 1 && fade_in <= f && slot[k].magnitude().bits
                < INFINITY_32 ==> r[k].is_zero()
        }),
{
    let n = out_channels as int;
    let k = f * n + c;
    vstd::arithmetic::div_mod::lemma_fundamental_div_mod_converse(k, n, f, c);
    assert(0 <= k < frames * n) by (nonlinear_arith)
        requires
            0 <= f < frames,
            0 <= c < n,
            k == f * n + c,
    ;
    assert(slot.len() as int / n == frames) by {
        vstd::arithmetic::div_mod::lemma_div_by_multiple(frames as int, n);
    }
    let up = start_faded(slot, n as nat, fade_in);
    if slot[k].magnitude().bits < INFINITY_32 {
        crate::signal::lemma_start_fade_leaves_silence(slot, n as nat, fade_in, k);
        if fade_in >= 1 && f == 0 {
            assert(up[k].is_zero());
        }
        if up[k].magnitude().bits < INFINITY_32 {
            crate::signal::lemma_end_fade_reaches_silence(up, n as nat, fade_out, k);
        }
    }
}

/// The level from which a recording is trimmed: the onset level, and none where
/// trimming is off.
pub open spec fn trim_level(args: RenderArgs, onset: Binary32) -> Binary32 {
    if args.no_trim_onset {
        Binary32 { bits: 0 }
    } else {
        onset
    }
}

/// A recording holds the capture between its fades: it starts the lookback before
/// the first frame that reaches the onset level, and nothing is trimmed where that
/// is switched off. So many milliseconds are 44.1 frames each.
pub proof fn lemma_recording_keeps_its_sound(
    args: RenderArgs,
    native: Seq<Binary32>,
    native_channels: u16,
    out_channels: u16,
    slot_length: Binary64,
    onset: Binary32,
)
    requires
        1 <= out_channels <= 2,
        args.onset_lookback_ms <= 0xFF_FFFF,
        args.fade_in_ms <= 0xFF_FFFF,
        args.fade_ms <= 0xFF_FFFF,
        frames_at(slot_length, 44_100) * 2 <= usize::MAX,
    ensures
        keeps_capture(
            recorded_slot(args, native, 44_100, native_channels, out_channels, slot_length, onset),
            native,
            native_channels,
            out_channels,
            args.fade_in_ms as int * 441 / 10,
            frames_at(slot_length, 44_100) - args.fade_ms as int * 441 / 10,
            trim_level(args, onset),
            args.onset_lookback_ms as nat * 441 / 10,
        ),
        recorded_slot(
            args,
            native,
            44_100,
            native_channels,
            out_channels,
            slot_length,
            onset,
        ).len() == frames_at(slot_length, 44_100) * out_channels,
{
    lemma_frames_of_milliseconds(args.onset_lookback_ms);
    lemma_frames_of_milliseconds(args.fade_in_ms);
    lemma_frames_of_milliseconds(args.fade_ms);
    let frames = frames_at(slot_length, 44_100);
    assert(frames * out_channels <= frames * 2) by (nonlinear_arith)
        requires
            out_channels <= 2,
    ;
    lemma_recorded_between_fades(args, native, native_channels, out_channels, slot_length, onset);
}

/// What a stereo slot with fades holds between them.
proof fn lemma_sides_between_fades(
    slot: Seq<Binary32>,
    native: Seq<Binary32>,
    native_channels: u16,
    frames: nat,
    up: nat,
    down: nat,
    level: Binary32,
    lookback: nat,
)
    requires
        slot.len() == frames * 2,
        slot.len() <= usize::MAX,
        keeps_sides(slot, native, native_channels, 0, frames as int, level, lookback),
    ensures
        keeps_sides(
            faded(slot, 2, up, down),
            native,
            native_channels,
            up as int,
            frames - down,
            level,
            lookback,
        ),
{
    let r = faded(slot, 2, up, down);
    let ch = native_channels as int;
    assert forall|start: nat, f: int|
        #![trigger starts_at(native, ch, heard_in_stereo(ch), level, lookback, start), r[2 * f]]
        starts_at(native, ch, heard_in_stereo(ch), level, lookback, start) && up <= f < frames - down
            && start + f < native.len() as int / ch implies {
        let at = (start + f) * ch;
        &&& r[2 * f] == native[at]
        &&& r[2 * f + 1] == native[at + (if native_channels >= 2 {
            1int
        } else {
            0
        })]
    } by {
        lemma_faded_sample(slot, 2, frames, up, down, f, 0);
        lemma_faded_sample(slot, 2, frames, up, down, f, 1);
        assert(slot[2 * f] == native[(start + f) * ch]);
    }
}

/// What a mono slot with fades holds between them.
proof fn lemma_channel_between_fades(
    slot: Seq<Binary32>,
    native: Seq<Binary32>,
    frames: nat,
    up: nat,
    down: nat,
    level: Binary32,
    lookback: nat,
)
    requires
        slot.len() == frames,
        slot.len() <= usize::MAX,
        keeps_channel(slot, native, 0, frames as int, level, lookback),
    ensures
        keeps_channel(
            faded(slot, 1, up, down),
            native,
            up as int,
            frames - down,
            level,
            lookback,
        ),
{
    let r = faded(slot, 1, up, down);
    assert forall|start: nat, f: int|
        #![trigger starts_at(native, 1, 1, level, lookback, start), r[f]]
        starts_at(native, 1, 1, level, lookback, start) && up <= f < frames - down && start + f
            < native.len() implies r[f] == native[start + f] by {
        lemma_faded_sample(slot, 1, frames, up, down, f, 0);
        assert(slot[f] == native[start + f]);
    }
}

/// What a recording holds between its fades.
pub(crate) proof fn lemma_recorded_between_fades(
    args: RenderArgs,
    native: Seq<Binary32>,
    native_channels: u16,
    out_channels: u16,
    slot_length: Binary64,
    onset: Binary32,
)
    requires
        1 <= out_channels <= 2,
        frames_at(slot_length, 44_100) * out_channels <= usize::MAX,
    ensures
        keeps_capture(
            recorded_slot(args, native, 44_100, native_channels, out_channels, slot_length, onset),
            native,
            native_channels,
            out_channels,
            ms_frames(args.fade_in_ms) as int,
            frames_at(slot_length, 44_100) - ms_frames(args.fade_ms),
            trim_level(args, onset),
            ms_frames(args.onset_lookback_ms),
        ),
        recorded_slot(
            args,
            native,
            44_100,
            native_channels,
            out_channels,
            slot_length,
            onset,
        ).len() == frames_at(slot_length, 44_100) * out_channels,
{
    let level = trim_level(args, onset);
    let lookback = ms_frames(args.onset_lookback_ms);
    let frames = frames_at(slot_length, 44_100);
    let (up, down) = (ms_frames(args.fade_in_ms), ms_frames(args.fade_ms));
    let slot = finalized(
        slot_channels(native, 44_100, native_channels, out_channels),
        slot_length,
        level,
        lookback,
    );
    lemma_slots_are_captures(native, native_channels, out_channels, slot_length, level, lookback);
    assert(slot.len() == frames * out_channels);
    if native_channels >= 1 && out_channels == 2 {
        lemma_sides_between_fades(slot, native, native_channels, frames, up, down, level, lookback);
    }
    if native_channels == 1 && out_channels == 1 && are_ordinary(native) {
        lemma_channel_between_fades(slot, native, frames, up, down, level, lookback);
    }
}

/// The attack of a trimmed recording stays whole: the first frame that reaches the
/// onset level lies behind the lookback, at 44.1 frames a millisecond, and is not
/// faded where the fades leave it out.
pub proof fn lemma_onset_lies_behind_the_lookback(
    args: RenderArgs,
    native: Seq<Binary32>,
    native_channels: u16,
    slot_length: Binary64,
    onset: Binary32,
    o: int,
)
    requires
        native_channels >= 1,
        !args.no_trim_onset,
        !onset.is_nan(),
        onset.rank() > 0,
        args.onset_lookback_ms <= 0xFF_FFFF,
        args.fade_in_ms <= args.onset_lookback_ms,
        args.fade_ms <= 0xFF_FFFF,
        frames_at(slot_length, 44_100) * 2 <= usize::MAX,
        is_first_loud(
            native,
            native_channels as int,
            heard_in_stereo(native_channels as int),
            onset,
            o,
        ),
        args.onset_lookback_ms as int * 441 / 10 <= o,
        args.onset_lookback_ms as int * 441 / 10 < frames_at(slot_length, 44_100)
            - args.fade_ms as int * 441 / 10,
    ensures
        ({
            let ch = native_channels as int;
            let r = recorded_slot(args, native, 44_100, native_channels, 2, slot_length, onset);
            let at = args.onset_lookback_ms as int * 441 / 10;
            &&& r[2 * at] == native[o * ch]
            &&& ch >= 2 ==> r[2 * at + 1] == native[o * ch + 1]
        }),
{
    let ch = native_channels as int;
    let lookback = args.onset_lookback_ms as nat * 441 / 10;
    let r = recorded_slot(args, native, 44_100, native_channels, 2, slot_length, onset);
    let start = (o - lookback) as nat;
    lemma_recording_keeps_its_sound(args, native, native_channels, 2, slot_length, onset);
    assert(starts_at(native, ch, heard_in_stereo(ch), onset, lookback, start));
    assert(args.fade_in_ms as int * 441 / 10 <= lookback);
    assert(start + lookback == o);
    assert(r[2 * (lookback as int)] == native[(start + lookback) * ch]);
}

/// A mono recording keeps its attack in the same way.
pub proof fn lemma_mono_onset_lies_behind_the_lookback(
    args: RenderArgs,
    native: Seq<Binary32>,
    slot_length: Binary64,
    onset: Binary32,
    o: int,
)
    requires
        are_ordinary(native),
        !args.no_trim_onset,
        !onset.is_nan(),
        onset.rank() > 0,
        args.onset_lookback_ms <= 0xFF_FFFF,
        args.fade_in_ms <= args.onset_lookback_ms,
        args.fade_ms <= 0xFF_FFFF,
        frames_at(slot_length, 44_100) * 2 <= usize::MAX,
        is_first_loud(native, 1, 1, onset, o),
        args.onset_lookback_ms as int * 441 / 10 <= o,
        args.onset_lookback_ms as int * 441 / 10 < frames_at(slot_length, 44_100)
            - args.fade_ms as int * 441 / 10,
    ensures
        recorded_slot(args, native, 44_100, 1, 1, slot_length, onset)[args.onset_lookback_ms as int
            * 441 / 10] == native[o],
{
    let lookback = args.onset_lookback_ms as nat * 441 / 10;
    let r = recorded_slot(args, native, 44_100, 1, 1, slot_length, onset);
    let start = (o - lookback) as nat;
    lemma_recording_keeps_its_sound(args, native, 1, 1, slot_length, onset);
    assert(starts_at(native, 1, 1, onset, lookback, start));
    assert(args.fade_in_ms as int * 441 / 10 <= lookback);
    assert(r[lookback as int] == native[(start + lookback) as int]);
}

/// A stereo slot with a fade-in starts in silence, and one with a fade-out ends in it.
pub(crate) proof fn lemma_stereo_slot_is_faded(
    native: Seq<Binary32>,
    native_channels: u16,
    slot_length: Binary64,
    level: Binary32,
    lookback: nat,
    up: nat,
    down: nat,
    c: int,
)
    requires
        native_channels >= 1,
        forall|i: int|
            0 <= i < native.len() ==> (#[trigger] native[i]).magnitude().bits < INFINITY_32,
        up + down < frames_at(slot_length, 44_100),
        frames_at(slot_length, 44_100) * 2 <= usize::MAX,
        0 <= c < 2,
    ensures
        ({
            let slot = finalized(
                slot_channels(native, 44_100, native_channels, 2),
                slot_length,
                level,
                lookback,
            );
            let r = faded(slot, 2, up, down);
            &&& r.len() == 2 * frames_at(slot_length, 44_100)
            &&& up > 0 ==> r[c].is_zero()
            &&& down > 0 ==> r[r.len() - 2 + c].is_zero()
        }),
{
    let ch = native_channels as nat;
    let frames = frames_at(slot_length, 44_100);
    let channels = slot_channels(native, 44_100, native_channels, 2);
    let slot = finalized(channels, slot_length, level, lookback);
    assert(slot.len() == frames * 2);
    assert forall|d: int, g: int|
        0 <= d < 2 && 0 <= g < channels[d].len() implies (#[trigger] channels[d][g]).magnitude().bits
        < INFINITY_32 by {
        let at = g * ch as int + (if ch >= 2 {
            d
        } else {
            0
        });
        assert((g + 1) * ch as int == g * ch as int + ch) by (nonlinear_arith);
        assert(0 <= at < native.len()) by (nonlinear_arith)
            requires
                0 <= g < native.len() / ch,
                ch >= 1,
                g * ch as int <= at < (g + 1) * ch as int,
        ;
        assert(channels[d][g] == native[at]);
    }
    lemma_faded_sample(slot, 2, frames, up, down, 0, c);
    lemma_faded_sample(slot, 2, frames, up, down, frames - 1, c);
    assert(slot[c].magnitude().bits < INFINITY_32);
    assert(slot[slot.len() - 2 + c].magnitude().bits < INFINITY_32);
}

/// A recording with a fade-in starts in silence, and one with a fade-out ends in it.
pub proof fn lemma_recording_is_faded(
    args: RenderArgs,
    native: Seq<Binary32>,
    native_channels: u16,
    slot_length: Binary64,
    onset: Binary32,
    c: int,
)
    requires
        native_channels >= 1,
        forall|i: int|
            0 <= i < native.len() ==> (#[trigger] native[i]).magnitude().bits < INFINITY_32,
        args.fade_in_ms <= 0xFF_FFFF,
        args.fade_ms <= 0xFF_FFFF,
        (args.fade_in_ms + args.fade_ms) * 441 < 10 * frames_at(slot_length, 44_100),
        frames_at(slot_length, 44_100) * 2 <= usize::MAX,
        0 <= c < 2,
    ensures
        ({
            let r = recorded_slot(args, native, 44_100, native_channels, 2, slot_length, onset);
            &&& args.fade_in_ms > 0 ==> r[c].is_zero()
            &&& args.fade_ms > 0 ==> r[r.len() - 2 + c].is_zero()
        }),
{
    lemma_frames_of_milliseconds(args.fade_in_ms);
    lemma_frames_of_milliseconds(args.fade_ms);
    lemma_stereo_slot_is_faded(
        native,
        native_channels,
        slot_length,
        trim_level(args, onset),
        ms_frames(args.onset_lookback_ms),
        ms_frames(args.fade_in_ms),
        ms_frames(args.fade_ms),
        c,
    );
}

/// A recording at any rate that is not trimmed holds, between its fades, the left and
/// the right channel of the capture, each brought to the output rate.
pub proof fn lemma_recording_is_resampled(
    args: RenderArgs,
    native: Seq<Binary32>,
    native_rate: u32,
    native_channels: u16,
    slot_length: Binary64,
    onset: Binary32,
    f: int,
)
    requires
        native_channels >= 2,
        args.no_trim_onset,
        args.fade_in_ms <= 0xFF_FFFF,
        args.fade_ms <= 0xFF_FFFF,
        frames_at(slot_length, 44_100) * 2 <= usize::MAX,
        args.fade_in_ms as int * 441 / 10 <= f < frames_at(slot_length, 44_100)
            - args.fade_ms as int * 441 / 10,
    ensures
        ({
            let ch = native_channels as int;
            let frames = native.len() / native_channels as nat;
            let left = resampled(Seq::new(frames, |g: int| native[g * ch]), native_rate, 44_100);
            let right = resampled(Seq::new(frames, |g: int| native[g * ch + 1]), native_rate, 44_100);
            let r = recorded_slot(args, native, native_rate, native_channels, 2, slot_length, onset);
            &&& f < left.len() ==> r[2 * f] == left[f]
            &&& f < right.len() ==> r[2 * f + 1] == right[f]
        }),
{
    let slot = finalized(
        slot_channels(native, native_rate, native_channels, 2),
        slot_length,
        silence(),
        ms_frames(args.onset_lookback_ms),
    );
    let frames = frames_at(slot_length, 44_100);
    lemma_frames_of_milliseconds(args.fade_in_ms);
    lemma_frames_of_milliseconds(args.fade_ms);
    lemma_stereo_slot_is_resampled(
        native,
        native_rate,
        native_channels,
        2,
        slot_length,
        silence(),
        ms_frames(args.onset_lookback_ms),
        f,
    );
    let (up, down) = (ms_frames(args.fade_in_ms), ms_frames(args.fade_ms));
    lemma_faded_sample(slot, 2, frames, up, down, f, 0);
    lemma_faded_sample(slot, 2, frames, up, down, f, 1);
}

/// A mono recording at any rate that is not trimmed holds, between its fades, the
/// means of the frames of the capture, brought to the output rate.
pub proof fn lemma_mono_recording_is_resampled(
    args: RenderArgs,
    native: Seq<Binary32>,
    native_rate: u32,
    native_channels: u16,
    slot_length: Binary64,
    onset: Binary32,
    f: int,
)
    requires
        native_channels >= 1,
        args.no_trim_onset,
        args.fade_in_ms <= 0xFF_FFFF,
        args.fade_ms <= 0xFF_FFFF,
        frames_at(slot_length, 44_100) * 2 <= usize::MAX,
        args.fade_in_ms as int * 441 / 10 <= f < frames_at(slot_length, 44_100)
            - args.fade_ms as int * 441 / 10,
    ensures
        ({
            let ch = native_channels as int;
            let means = Seq::new(
                native.len() / native_channels as nat,
                |g: int| mean_32(Seq::new(native_channels as nat, |c: int| native[g * ch + c])),
            );
            let mono = resampled(means, native_rate, 44_100);
            let r = recorded_slot(args, native, native_rate, native_channels, 1, slot_length, onset);
            f < mono.len() ==> r[f] == mono[f]
        }),
{
    let slot = finalized(
        slot_channels(native, native_rate, native_channels, 1),
        slot_length,
        silence(),
        ms_frames(args.onset_lookback_ms),
    );
    let frames = frames_at(slot_length, 44_100);
    lemma_frames_of_milliseconds(args.fade_in_ms);
    lemma_frames_of_milliseconds(args.fade_ms);
    lemma_mono_slot_is_resampled(
        native,
        native_rate,
        native_channels,
        1,
        slot_length,
        silence(),
        ms_frames(args.onset_lookback_ms),
        f,
    );
    let (up, down) = (ms_frames(args.fade_in_ms), ms_frames(args.fade_ms));
    lemma_faded_sample(slot, 1, frames, up, down, f, 0);
}

/// Whether frame `o` is the first in which one of two channels reaches a level.
pub open spec fn is_first_loud_of_two(
    left: Seq<Binary32>,
    right: Seq<Binary32>,
    level: Binary32,
    o: int,
) -> bool {
    &&& 0 <= o < left.len()
    &&& o < right.len()
    &&& left[o].magnitude().at_least(level) || right[o].magnitude().at_least(level)
    &&& forall|g: int| 0 <= g < o ==> !(#[trigger] left[g]).magnitude().at_least(level)
    &&& forall|g: int| 0 <= g < o ==> !(#[trigger] right[g]).magnitude().at_least(level)
}

/// The attack of a trimmed recording at any rate stays whole: of the two channels brought
/// to the output rate, the first frame that reaches the onset level lies behind the
/// lookback, at 44.1 frames a millisecond.
pub proof fn lemma_resampled_onset_lies_behind_the_lookback(
    args: RenderArgs,
    native: Seq<Binary32>,
    native_rate: u32,
    native_channels: u16,
    slot_length: Binary64,
    onset: Binary32,
    o: int,
)
    requires
        native_channels >= 2,
        !args.no_trim_onset,
        !onset.is_nan(),
        onset.rank() > 0,
        args.onset_lookback_ms <= 0xFF_FFFF,
        args.fade_in_ms <= args.onset_lookback_ms,
        args.fade_ms <= 0xFF_FFFF,
        frames_at(slot_length, 44_100) * 2 <= usize::MAX,
        ({
            let ch = native_channels as int;
            let frames = native.len() / native_channels as nat;
            is_first_loud_of_two(
                resampled(Seq::new(frames, |g: int| native[g * ch]), native_rate, 44_100),
                resampled(Seq::new(frames, |g: int| native[g * ch + 1]), native_rate, 44_100),
                onset,
                o,
            )
        }),
        args.onset_lookback_ms as int * 441 / 10 <= o,
        args.onset_lookback_ms as int * 441 / 10 < frames_at(slot_length, 44_100)
            - args.fade_ms as int * 441 / 10,
    ensures
        ({
            let ch = native_channels as int;
            let frames = native.len() / native_channels as nat;
            let left = resampled(Seq::new(frames, |g: int| native[g * ch]), native_rate, 44_100);
            let right = resampled(Seq::new(frames, |g: int| native[g * ch + 1]), native_rate, 44_100);
            let r = recorded_slot(args, native, native_rate, native_channels, 2, slot_length, onset);
            let at = args.onset_lookback_ms as int * 441 / 10;
            r[2 * at] == left[o] && r[2 * at + 1] == right[o]
        }),
{
    let ch = native_channels as int;
    let frames = native.len() / native_channels as nat;
    let left = resampled(Seq::new(frames, |g: int| native[g * ch]), native_rate, 44_100);
    let right = resampled(Seq::new(frames, |g: int| native[g * ch + 1]), native_rate, 44_100);
    lemma_sides_are_channels(native, native_channels);
    lemma_frames_of_milliseconds(args.onset_lookback_ms);
    lemma_frames_of_milliseconds(args.fade_in_ms);
    lemma_frames_of_milliseconds(args.fade_ms);
    assert(slot_channels(native, native_rate, native_channels, 2) =~= seq![left, right]);
    lemma_attack_of_two(
        left,
        right,
        slot_length,
        onset,
        args.onset_lookback_ms as nat * 441 / 10,
        ms_frames(args.fade_in_ms),
        ms_frames(args.fade_ms),
        o,
    );
}

/// The first loud frame of two channels lies behind the lookback of their slot.
proof fn lemma_attack_of_two(
    left: Seq<Binary32>,
    right: Seq<Binary32>,
    slot_length: Binary64,
    onset: Binary32,
    lookback: nat,
    up: nat,
    down: nat,
    o: int,
)
    requires
        !onset.is_nan(),
        onset.rank() > 0,
        up <= lookback < frames_at(slot_length, 44_100) - down,
        lookback <= o,
        frames_at(slot_length, 44_100) * 2 <= usize::MAX,
        is_first_loud_of_two(left, right, onset, o),
    ensures
        ({
            let r = faded(finalized(seq![left, right], slot_length, onset, lookback), 2, up, down);
            r[2 * lookback as int] == left[o] && r[2 * lookback as int + 1] == right[o]
        }),
{
    let channels = seq![left, right];
    let start = (o - lookback) as nat;
    let frames = frames_at(slot_length, 44_100);
    assert(onset_at(channels, onset, o)) by {
        if left[o].magnitude().at_least(onset) {
            assert(o < channels[0].len() && channels[0][o].magnitude().at_least(onset));
        } else {
            assert(o < channels[1].len() && channels[1][o].magnitude().at_least(onset));
        }
    }
    assert forall|g: int| 0 <= g < o implies !onset_at(channels, onset, g) by {
        assert(channels[0] == left && channels[1] == right);
        assert(!left[g].magnitude().at_least(onset));
        assert(!right[g].magnitude().at_least(onset));
    }
    assert(is_slot_start(channels, onset, lookback, start));
    lemma_slot_sample(channels, slot_length, onset, lookback, start, lookback as int, 0);
    lemma_slot_sample(channels, slot_length, onset, lookback, start, lookback as int, 1);
    let slot = finalized(channels, slot_length, onset, lookback);
    lemma_faded_sample(slot, 2, frames, up, down, lookback as int, 0);
    lemma_faded_sample(slot, 2, frames, up, down, lookback as int, 1);
}

} // verus!
