//! What the slots that are cut out of a rendered chain keep of it, and what is said
//! of them.
use crate::analysis::window_samples;
use crate::audio::{
    frames_at, lemma_frames_of_milliseconds, ms_frames, slot_status_text, slot_window,
};
use crate::chain::{lemma_slices_are_slots, rendered_slot, rendered_slots, slot_size};
use crate::cli::{RenderArgs, RenderSfzArgs};
use crate::keeping::{
    are_ordinary, heard_in_stereo, is_ordinary, lemma_faded_sample, lemma_mono_slot_is_the_capture,
    lemma_stereo_slot_is_faded, lemma_stereo_slot_is_resampled, lemma_stereo_slot_is_the_capture,
    starts_at,
};
use crate::level::{lemma_peak_is_greatest, peak, silence, Binary32, INFINITY_32};
use crate::number::Binary64;
use crate::session::leveled_samples;
use crate::signal::{
    finalized, lemma_normalized_peak_is_target, normalized, resampled, slot_channels, NOISE_FLOOR,
};
use crate::single::quotient_32;
use vstd::arithmetic::power2::pow2;
use vstd::prelude::*;

verus! {

/// Whether one of some samples is as loud as a level.
pub open spec fn is_reached(samples: Seq<Binary32>, level: Binary32) -> bool {
    exists|k: int| 0 <= k < samples.len() && (#[trigger] samples[k]).magnitude().at_least(level)
}

/// A peak reaches a level above zero exactly where one of the samples does.
pub proof fn lemma_peak_reaches(samples: Seq<Binary32>, level: Binary32)
    requires
        !level.is_nan(),
        level.rank() > 0,
    ensures
        peak(samples).at_least(level) <==> is_reached(samples, level),
{
    lemma_peak_is_greatest(samples);
    if is_reached(samples, level) {
        let k = choose|k: int|
            0 <= k < samples.len() && (#[trigger] samples[k]).magnitude().at_least(level);
        assert(!samples[k].is_nan());
        assert(samples[k].magnitude().bits <= peak(samples).bits);
    }
    if peak(samples).at_least(level) {
        let k = choose|k: int|
            0 <= k < samples.len() && #[trigger] samples[k].magnitude() == peak(samples);
        assert(samples[k].magnitude().at_least(level));
    }
}

/// A slot counts as rendered exactly where one of its samples reaches a ten
/// thousandth, and as silent otherwise.
pub proof fn lemma_status_goes_by_the_samples(samples: Seq<Binary32>)
    ensures
        slot_status_text(samples) == (if is_reached(samples, Binary32 { bits: 0x38D1_B717 }) {
            "rendered"@
        } else {
            "silent"@
        }),
{
    lemma_peak_reaches(samples, Binary32 { bits: 0x38D1_B717 });
}

/// Whether a slot cut out of a chain holds what the chain holds at its place, in the
/// frames from `from` to before `to`: its left and its right channel, or its only one
/// on both sides, and in a mono slot its only one.
pub open spec fn keeps_slot(
    slot: Seq<Binary32>,
    samples: Seq<Binary32>,
    channels: u16,
    out_channels: u16,
    first_frame: int,
    from: int,
    to: int,
) -> bool {
    let ch = channels as int;
    &&& channels >= 1 && out_channels == 2 ==> forall|f: int|
        #![trigger slot[2 * f]]
        from <= f < to && first_frame + f < samples.len() as int / ch ==> {
            let at = (first_frame + f) * ch;
            &&& slot[2 * f] == samples[at]
            &&& slot[2 * f + 1] == samples[at + (if channels >= 2 {
                1int
            } else {
                0
            })]
        }
    &&& channels == 1 && out_channels == 1 && are_ordinary(samples) ==> forall|f: int|
        from <= f < to && first_frame + f < samples.len() ==> #[trigger] slot[f] == samples[first_frame
            + f]
}

/// The samples of a window, by the frame and the channel of the chain.
pub(crate) proof fn lemma_window_sample(samples: Seq<Binary32>, i: nat, frames: nat, channels: u16, f: int, c: int)
    requires
        channels >= 1,
        0 <= f < frames,
        0 <= c < channels,
        i * frames + f < samples.len() as int / channels as int,
    ensures
        ({
            let ch = channels as int;
            let window = window_samples(samples, i, frames, channels);
            &&& 0 <= f < window.len() as int / ch
            &&& window.len() <= samples.len()
            &&& window[f * ch + c] == samples[(i * frames + f) * ch + c]
        }),
{
    let ch = channels as int;
    let len = samples.len() as int;
    let (a, b) = (i * frames, f);
    assert(i as nat * frames * (ch as nat) == a * ch);
    assert((i + 1) * frames == a + frames) by (nonlinear_arith)
        requires
            a == i * frames,
    ;
    assert((a + frames) * ch == a * ch + frames * ch) by (nonlinear_arith);
    assert((a + f) * ch == a * ch + f * ch) by (nonlinear_arith);
    assert((a + f + 1) * ch == a * ch + f * ch + ch) by (nonlinear_arith);
    assert((a + f + 1) * ch <= len) by (nonlinear_arith)
        requires
            a + f < len / ch,
            ch >= 1,
    ;
    assert(f * ch + ch <= frames * ch) by (nonlinear_arith)
        requires
            f + 1 <= frames,
            ch >= 1,
    ;
    assert(a * ch >= 0 && f * ch >= 0) by (nonlinear_arith)
        requires
            a >= 0,
            f >= 0,
            ch >= 1,
    ;
    let window = window_samples(samples, i, frames, channels);
    assert(window.len() >= f * ch + ch);
    assert(f < window.len() as int / ch) by (nonlinear_arith)
        requires
            window.len() >= f * ch + ch,
            ch >= 1,
    ;
}

/// What slot `i` of a chain at the output rate holds between its fades.
proof fn lemma_rendered_slot_keeps(
    args: RenderSfzArgs,
    slot_length: Binary64,
    samples: Seq<Binary32>,
    channels: u16,
    i: nat,
)
    requires
        slot_size(slot_length, args.channels.count(channels)) <= usize::MAX,
    ensures
        keeps_slot(
            rendered_slot(args, slot_length, samples, channels, 44_100, i),
            samples,
            channels,
            args.channels.count(channels),
            (i * frames_at(slot_length, 44_100)) as int,
            ms_frames(args.fade_in_ms) as int,
            frames_at(slot_length, 44_100) - ms_frames(args.fade_ms),
        ),
{
    let out = args.channels.count(channels);
    let frames = frames_at(slot_length, 44_100);
    let ch = channels as int;
    let (up, down) = (ms_frames(args.fade_in_ms), ms_frames(args.fade_ms));
    let window = window_samples(samples, i, frames, channels);
    let raw = finalized(slot_channels(window, 44_100, channels, out), slot_length, silence(), 0);
    let slot = rendered_slot(args, slot_length, samples, channels, 44_100, i);
    let first = i * frames;
    assert(raw.len() == frames * out);
    if channels >= 1 && out == 2 {
        assert forall|f: int|
            #![trigger slot[2 * f]]
            up <= f < frames - down && first + f < samples.len() as int / ch implies {
            let at = (first + f) * ch;
            &&& slot[2 * f] == samples[at]
            &&& slot[2 * f + 1] == samples[at + (if channels >= 2 {
                1int
            } else {
                0
            })]
        } by {
            let c: int = if channels >= 2 {
                1
            } else {
                0
            };
            lemma_window_sample(samples, i, frames, channels, f, 0);
            lemma_window_sample(samples, i, frames, channels, f, c);
            assert(starts_at(window, ch, heard_in_stereo(ch), silence(), 0, 0));
            lemma_stereo_slot_is_the_capture(
                window,
                channels,
                out,
                slot_length,
                silence(),
                0,
                0,
                f,
            );
            lemma_faded_sample(raw, out, frames, up, down, f, 0);
            lemma_faded_sample(raw, out, frames, up, down, f, 1);
            assert(f * out == 2 * f);
        }
    }
    if channels == 1 && out == 1 && are_ordinary(samples) {
        assert forall|f: int| up <= f < frames - down && first + f < samples.len() implies #[trigger] slot[f]
            == samples[first + f] by {
            lemma_window_sample(samples, i, frames, channels, f, 0);
            assert forall|k: int| 0 <= k < window.len() implies is_ordinary(#[trigger] window[k]) by {
                assert((i + 1) * frames * 1nat >= i * frames * 1nat) by (nonlinear_arith)
                    requires
                        frames >= 0,
                ;
                let w = slot_window(i, frames, 1, samples.len());
                assert(window[k] == samples[w.0 + k]);
            }
            assert(starts_at(window, 1, 1, silence(), 0, 0));
            lemma_mono_slot_is_the_capture(window, channels, out, slot_length, silence(), 0, 0, f);
            lemma_faded_sample(raw, out, frames, up, down, f, 0);
            assert(f * out == f);
        }
    }
}

/// Whether a chain of finished slots keeps a rendered chain: slot `i` holds, between
/// its fades, what the rendered chain holds from `i` slot lengths on.
pub open spec fn keeps_chain(
    chain: Seq<Binary32>,
    samples: Seq<Binary32>,
    channels: u16,
    out_channels: u16,
    slots: nat,
    frames: int,
    from: int,
    to: int,
) -> bool {
    &&& chain.len() == slots * (frames * out_channels)
    &&& forall|i: int|
        0 <= i < slots ==> keeps_slot(
            #[trigger] chain.subrange(i * (frames * out_channels), (i + 1) * (frames * out_channels)),
            samples,
            channels,
            out_channels,
            i * frames,
            from,
            to,
        )
}

/// A rendered chain at the output rate is kept: slot `i` of what is made of it holds,
/// between its fades, the samples from `i` slot lengths on, each channel in its place.
/// So many milliseconds of a fade are 44.1 frames each.
pub proof fn lemma_rendered_chain_is_kept(
    args: RenderSfzArgs,
    slot_length: Binary64,
    samples: Seq<Binary32>,
    channels: u16,
    n: nat,
)
    requires
        args.fade_in_ms <= 0xFF_FFFF,
        args.fade_ms <= 0xFF_FFFF,
        frames_at(slot_length, 44_100) * 2 <= usize::MAX,
    ensures
        keeps_chain(
            rendered_slots(args, slot_length, samples, channels, 44_100, n),
            samples,
            channels,
            args.channels.count(channels),
            n,
            frames_at(slot_length, 44_100) as int,
            args.fade_in_ms as int * 441 / 10,
            frames_at(slot_length, 44_100) - args.fade_ms as int * 441 / 10,
        ),
{
    lemma_frames_of_milliseconds(args.fade_in_ms);
    lemma_frames_of_milliseconds(args.fade_ms);
    lemma_chain_between_fades(args, slot_length, samples, channels, n);
}

/// What a chain of finished slots holds between its fades.
pub(crate) proof fn lemma_chain_between_fades(
    args: RenderSfzArgs,
    slot_length: Binary64,
    samples: Seq<Binary32>,
    channels: u16,
    n: nat,
)
    requires
        slot_size(slot_length, args.channels.count(channels)) <= usize::MAX,
    ensures
        keeps_chain(
            rendered_slots(args, slot_length, samples, channels, 44_100, n),
            samples,
            channels,
            args.channels.count(channels),
            n,
            frames_at(slot_length, 44_100) as int,
            ms_frames(args.fade_in_ms) as int,
            frames_at(slot_length, 44_100) - ms_frames(args.fade_ms),
        ),
{
    let out = args.channels.count(channels);
    let frames = frames_at(slot_length, 44_100) as int;
    let size = frames * out;
    let chain = rendered_slots(args, slot_length, samples, channels, 44_100, n);
    assert(size == slot_size(slot_length, out));
    if n > 0 {
        lemma_slices_are_slots(args, slot_length, samples, channels, 44_100, n, 0);
    } else {
        assert(0 * size == 0);
    }
    assert forall|i: int| 0 <= i < n implies keeps_slot(
        #[trigger] chain.subrange(i * size, (i + 1) * size),
        samples,
        channels,
        out,
        i * frames,
        ms_frames(args.fade_in_ms) as int,
        frames - ms_frames(args.fade_ms),
    ) by {
        lemma_slices_are_slots(args, slot_length, samples, channels, 44_100, n, i as nat);
        lemma_rendered_slot_keeps(args, slot_length, samples, channels, i as nat);
    }
}

/// A slot cut out of a stereo chain with a fade-in starts in silence, and one with a
/// fade-out ends in it.
pub proof fn lemma_rendered_slot_is_faded(
    args: RenderSfzArgs,
    slot_length: Binary64,
    samples: Seq<Binary32>,
    channels: u16,
    i: nat,
    c: int,
)
    requires
        channels >= 1,
        args.channels.count(channels) == 2,
        forall|k: int|
            0 <= k < samples.len() ==> (#[trigger] samples[k]).magnitude().bits < INFINITY_32,
        args.fade_in_ms <= 0xFF_FFFF,
        args.fade_ms <= 0xFF_FFFF,
        (args.fade_in_ms + args.fade_ms) * 441 < 10 * frames_at(slot_length, 44_100),
        frames_at(slot_length, 44_100) * 2 <= usize::MAX,
        0 <= c < 2,
    ensures
        ({
            let r = rendered_slot(args, slot_length, samples, channels, 44_100, i);
            &&& args.fade_in_ms > 0 ==> r[c].is_zero()
            &&& args.fade_ms > 0 ==> r[r.len() - 2 + c].is_zero()
        }),
{
    let frames = frames_at(slot_length, 44_100);
    let window = window_samples(samples, i, frames, channels);
    let w = slot_window(i, frames, channels as nat, samples.len());
    assert((i + 1) * frames * channels as nat >= i * frames * channels as nat) by (nonlinear_arith)
        requires
            frames >= 0,
            channels >= 0,
    ;
    assert forall|k: int| 0 <= k < window.len() implies (#[trigger] window[k]).magnitude().bits
        < INFINITY_32 by {
        assert(window[k] == samples[w.0 + k]);
    }
    lemma_frames_of_milliseconds(args.fade_in_ms);
    lemma_frames_of_milliseconds(args.fade_ms);
    lemma_stereo_slot_is_faded(
        window,
        channels,
        slot_length,
        silence(),
        0,
        ms_frames(args.fade_in_ms),
        ms_frames(args.fade_ms),
        c,
    );
}

/// A slot cut out of a stereo chain at any rate holds, between its fades, the left and
/// the right channel of its part of the chain, each brought to the output rate: the
/// part from `i` slot lengths on, and one slot length long or up to the end.
#[verifier::rlimit(50)]
pub proof fn lemma_rendered_slot_is_resampled(
    args: RenderSfzArgs,
    slot_length: Binary64,
    samples: Seq<Binary32>,
    channels: u16,
    rate: u32,
    i: nat,
    f: int,
)
    requires
        channels >= 2,
        args.channels.count(channels) == 2,
        args.fade_in_ms <= 0xFF_FFFF,
        args.fade_ms <= 0xFF_FFFF,
        frames_at(slot_length, 44_100) * 2 <= usize::MAX,
        (i + 1) * frames_at(slot_length, rate) * channels <= samples.len(),
        args.fade_in_ms as int * 441 / 10 <= f < frames_at(slot_length, 44_100)
            - args.fade_ms as int * 441 / 10,
    ensures
        ({
            let ch = channels as int;
            let frames = frames_at(slot_length, rate);
            let left = resampled(
                Seq::new(frames, |g: int| samples[(i * frames + g) * ch]),
                rate,
                44_100,
            );
            let right = resampled(
                Seq::new(frames, |g: int| samples[(i * frames + g) * ch + 1]),
                rate,
                44_100,
            );
            let r = rendered_slot(args, slot_length, samples, channels, rate, i);
            &&& f < left.len() ==> r[2 * f] == left[f]
            &&& f < right.len() ==> r[2 * f + 1] == right[f]
        }),
{
    let ch = channels as int;
    let frames = frames_at(slot_length, rate);
    let window = window_samples(samples, i, frames, channels);
    lemma_whole_window(samples, i, frames, channels);
    assert(Seq::new(frames, |g: int| window[g * ch]) =~= Seq::new(
        frames,
        |g: int| samples[(i * frames + g) * ch],
    )) by {
        assert forall|g: int| 0 <= g < frames implies window[g * ch] == #[trigger] samples[(i * frames
            + g) * ch] by {
            assert(window[g * ch + 0] == samples[(i * frames + g) * ch + 0]);
        }
    }
    assert(Seq::new(frames, |g: int| window[g * ch + 1]) =~= Seq::new(
        frames,
        |g: int| samples[(i * frames + g) * ch + 1],
    ));
    let slot = finalized(slot_channels(window, rate, channels, 2), slot_length, silence(), 0);
    lemma_frames_of_milliseconds(args.fade_in_ms);
    lemma_frames_of_milliseconds(args.fade_ms);
    lemma_stereo_slot_is_resampled(window, rate, channels, 2, slot_length, silence(), 0, f);
    let (up, down) = (ms_frames(args.fade_in_ms), ms_frames(args.fade_ms));
    let all = frames_at(slot_length, 44_100);
    lemma_faded_sample(slot, 2, all, up, down, f, 0);
    lemma_faded_sample(slot, 2, all, up, down, f, 1);
}

/// A window that lies within the chain holds one slot length of it.
proof fn lemma_whole_window(samples: Seq<Binary32>, i: nat, frames: nat, channels: u16)
    requires
        channels >= 1,
        (i + 1) * frames * channels <= samples.len(),
    ensures
        ({
            let ch = channels as int;
            let window = window_samples(samples, i, frames, channels);
            &&& window.len() == frames * channels
            &&& window.len() / channels as nat == frames
            &&& forall|g: int, c: int|
                0 <= g < frames && 0 <= c < ch ==> #[trigger] window[g * ch + c] == samples[(i * frames
                    + g) * ch + c]
        }),
{
    let ch = channels as int;
    let window = window_samples(samples, i, frames, channels);
    let a = i * frames;
    assert((i + 1) * frames == a + frames) by (nonlinear_arith)
        requires
            a == i * frames,
    ;
    assert((a + frames) * ch == a * ch + frames * ch) by (nonlinear_arith);
    assert(a * ch >= 0 && frames * ch >= 0) by (nonlinear_arith)
        requires
            a >= 0,
            frames >= 0,
            ch >= 1,
    ;
    assert(window.len() == frames * ch);
    vstd::arithmetic::div_mod::lemma_div_by_multiple(frames as int, ch);
    assert forall|g: int, c: int| 0 <= g < frames && 0 <= c < ch implies #[trigger] window[g * ch + c]
        == samples[(i * frames + g) * ch + c] by {
        assert(a + g < samples.len() as int / ch) by (nonlinear_arith)
            requires
                a * ch + frames * ch <= samples.len(),
                g < frames,
                ch >= 1,
        ;
        lemma_window_sample(samples, i, frames, channels, g, c);
    }
}

/// The status of slot `i` of a chain is that of what the slot holds.
pub open spec fn are_statuses_of(statuses: Seq<Seq<char>>, chain: Seq<Binary32>, size: int) -> bool {
    forall|i: int|
        0 <= i < statuses.len() ==> #[trigger] statuses[i] == (if is_reached(
            chain.subrange(i * size, (i + 1) * size),
            Binary32 { bits: 0x38D1_B717 },
        ) {
            "rendered"@
        } else {
            "silent"@
        })
}

/// The statuses of the slots of a chain go by what they hold.
pub(crate) proof fn lemma_statuses_of_chain(
    args: RenderSfzArgs,
    slot_length: Binary64,
    samples: Seq<Binary32>,
    channels: u16,
    rate: u32,
    n: nat,
)
    ensures
        are_statuses_of(
            Seq::new(
                n,
                |i: int|
                    slot_status_text(
                        rendered_slot(args, slot_length, samples, channels, rate, i as nat),
                    ),
            ),
            rendered_slots(args, slot_length, samples, channels, rate, n),
            slot_size(slot_length, args.channels.count(channels)) as int,
        ),
{
    let size = slot_size(slot_length, args.channels.count(channels)) as int;
    let chain = rendered_slots(args, slot_length, samples, channels, rate, n);
    let statuses = Seq::new(
        n,
        |i: int|
            slot_status_text(rendered_slot(args, slot_length, samples, channels, rate, i as nat)),
    );
    assert forall|i: int| 0 <= i < statuses.len() implies #[trigger] statuses[i] == (if is_reached(
        chain.subrange(i * size, (i + 1) * size),
        Binary32 { bits: 0x38D1_B717 },
    ) {
        "rendered"@
    } else {
        "silent"@
    }) by {
        lemma_slices_are_slots(args, slot_length, samples, channels, rate, n, i as nat);
        lemma_status_goes_by_the_samples(
            rendered_slot(args, slot_length, samples, channels, rate, i as nat),
        );
    }
}

/// Whether samples and statuses are those of a rendered chain that was cut into slots:
/// the samples as they are kept or brought to the target, and the statuses by what was
/// there before that.
pub open spec fn are_cut_from(
    r: Seq<Binary32>,
    statuses: Seq<Seq<char>>,
    args: RenderSfzArgs,
    slot_length: Binary64,
    slots: nat,
    samples: Seq<Binary32>,
    channels: u16,
    rate: u32,
    target: Binary32,
) -> bool {
    exists|kept: Seq<Binary32>|
        {
            &&& r == (if args.no_normalize {
                kept
            } else {
                normalized(kept, target)
            })
            &&& #[trigger] are_statuses_of(
                statuses,
                kept,
                frames_at(slot_length, 44_100) * args.channels.count(channels),
            )
            &&& rate == 44_100 ==> keeps_chain(
                kept,
                samples,
                channels,
                args.channels.count(channels),
                slots,
                frames_at(slot_length, 44_100) as int,
                ms_frames(args.fade_in_ms) as int,
                frames_at(slot_length, 44_100) - ms_frames(args.fade_ms),
            )
        }
}

/// A recorded chain that is written has its loudest sample at the target, but for
/// rounding by one part in `2^22`, and is left as it is where that is switched off. The
/// chain is loud enough to be scaled, and neither the target nor the gain is so small or
/// so large that binary32 runs out of digits.
pub proof fn lemma_recorded_peak_is_target(args: RenderArgs, samples: Seq<Binary32>, target: Binary32)
    requires
        peak(samples).at_least(Binary32 { bits: NOISE_FLOOR }),
        peak(samples).bits < INFINITY_32,
        target.bits < INFINITY_32,
        target.grains() >= 0x100_0000,
        quotient_32(target, peak(samples)).bits < INFINITY_32,
        target.grains() * pow2(149) >= 0x80_0000 * peak(samples).grains(),
        peak(normalized(samples, target)).bits < INFINITY_32,
    ensures
        ({
            let r = leveled_samples(args, samples, target);
            let loudest = peak(r).grains();
            &&& args.no_normalize ==> r == samples
            &&& !args.no_normalize ==> (loudest - target.grains()) * 0x40_0000 <= target.grains()
            &&& !args.no_normalize ==> (target.grains() - loudest) * 0x40_0000 <= target.grains()
        }),
{
    if !args.no_normalize {
        lemma_normalized_peak_is_target(samples, target);
    }
}

} // verus!
