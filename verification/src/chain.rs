//! Finished slots, and the chains they make: every slot is the same size, so that
//! slice `i` of a chain is slot `i`.
use crate::analysis::{slot_of_chain, window_samples};
use crate::audio::{
    channel_count, frames_at, lemma_no_rate_has_no_frames, length_frames, milliseconds_to_frames,
    ms_frames, slot_status, slot_status_text,
};
use crate::cli::{RenderArgs, RenderSfzArgs, M8_SAMPLE_RATE};
use crate::cutting::{
    are_cut_from, are_statuses_of, lemma_chain_between_fades, lemma_statuses_of_chain,
};
use crate::keeping::{keeps_capture, lemma_recorded_between_fades, trim_level};
use crate::level::{silence, Binary32};
use crate::number::Binary64;
use crate::render_sfz::Job;
use crate::signal::{
    apply_end_fade, apply_start_fade, end_faded, finalize_slot, finalized, normalize_peak,
    normalized, slot_channels, slot_layout, start_faded,
};
use crate::text::texts;
use vstd::prelude::*;

verus! {

/// How many samples a slot of a chain has.
pub open spec fn slot_size(slot_length: Binary64, out_channels: u16) -> nat {
    frames_at(slot_length, M8_SAMPLE_RATE) * slot_layout(out_channels)
}

/// A slot with its fades.
pub open spec fn faded(slot: Seq<Binary32>, out_channels: u16, fade_in: nat, fade_out: nat) -> Seq<
    Binary32,
> {
    end_faded(
        start_faded(slot, channel_count(out_channels), fade_in),
        channel_count(out_channels),
        fade_out,
    )
}

/// The level at which the sound of a recorded slot starts: none where trimming is
/// off.
pub open spec fn onset_level(args: RenderArgs, onset: Binary32) -> Binary32 {
    if args.no_trim_onset {
        silence()
    } else {
        onset
    }
}

/// The slot that a recorded note makes.
pub open spec fn recorded_slot(
    args: RenderArgs,
    native: Seq<Binary32>,
    native_rate: u32,
    native_channels: u16,
    out_channels: u16,
    slot_length: Binary64,
    onset: Binary32,
) -> Seq<Binary32> {
    faded(
        finalized(
            slot_channels(native, native_rate, native_channels, out_channels),
            slot_length,
            onset_level(args, onset),
            ms_frames(args.onset_lookback_ms),
        ),
        out_channels,
        ms_frames(args.fade_in_ms),
        ms_frames(args.fade_ms),
    )
}

/// Post-process a recorded note into a fixed-length slot: trimmed from `onset` on
/// unless that is switched off, and faded at both ends.
pub fn finish_recording(
    args: &RenderArgs,
    native: &[Binary32],
    native_rate: u32,
    native_channels: u16,
    out_channels: u16,
    slot_length: Binary64,
    onset: Binary32,
) -> (r: Vec<Binary32>)
    requires
        native_rate > 0 || native.len() < channel_count(native_channels),
        slot_size(slot_length, out_channels) <= usize::MAX,
    ensures
        r@ == recorded_slot(
            *args,
            native@,
            native_rate,
            native_channels,
            out_channels,
            slot_length,
            onset,
        ),
        r.len() == slot_size(slot_length, out_channels),
        native_rate == 44_100 && 1 <= out_channels <= 2 ==> keeps_capture(
            r@,
            native@,
            native_channels,
            out_channels,
            ms_frames(args.fade_in_ms) as int,
            frames_at(slot_length, 44_100) - ms_frames(args.fade_ms),
            trim_level(*args, onset),
            ms_frames(args.onset_lookback_ms),
        ),
{
    proof {
        if 1 <= out_channels <= 2 {
            lemma_recorded_between_fades(
                *args,
                native@,
                native_channels,
                out_channels,
                slot_length,
                onset,
            );
        }
    }
    let threshold = if args.no_trim_onset {
        Binary32 { bits: 0 }
    } else {
        onset
    };
    let mut slot = finalize_slot(
        native,
        native_rate,
        native_channels,
        out_channels,
        slot_length,
        threshold,
        milliseconds_to_frames(args.onset_lookback_ms),
    );
    apply_start_fade(&mut slot, out_channels, milliseconds_to_frames(args.fade_in_ms));
    apply_end_fade(&mut slot, out_channels, milliseconds_to_frames(args.fade_ms));
    slot
}

/// Slot `i` of an offline rendered chain. It is not trimmed: its notes start on
/// the slot boundary.
pub open spec fn rendered_slot(
    args: RenderSfzArgs,
    slot_length: Binary64,
    samples: Seq<Binary32>,
    channels: u16,
    rate: u32,
    i: nat,
) -> Seq<Binary32> {
    let out_channels = args.channels.count(channels);
    faded(
        finalized(
            slot_channels(
                window_samples(samples, i, frames_at(slot_length, rate), channels),
                rate,
                channels,
                out_channels,
            ),
            slot_length,
            silence(),
            0,
        ),
        out_channels,
        ms_frames(args.fade_in_ms),
        ms_frames(args.fade_ms),
    )
}

/// The first `n` slots of an offline rendered chain, one after the other.
pub open spec fn rendered_slots(
    args: RenderSfzArgs,
    slot_length: Binary64,
    samples: Seq<Binary32>,
    channels: u16,
    rate: u32,
    n: nat,
) -> Seq<Binary32>
    decreases n,
{
    if n == 0 {
        Seq::empty()
    } else {
        rendered_slots(args, slot_length, samples, channels, rate, (n - 1) as nat) + rendered_slot(
            args,
            slot_length,
            samples,
            channels,
            rate,
            (n - 1) as nat,
        )
    }
}

/// Cuts an offline rendered chain into the slots of a job and finishes them: the
/// samples of all slots, normalized to `target` unless that is switched off, and
/// the statuses of the slots.
pub fn finish_chain(
    args: &RenderSfzArgs,
    job: &Job,
    samples: &[Binary32],
    channels: u16,
    rate: u32,
    target: Binary32,
) -> (r: (Vec<Binary32>, Vec<String>))
    requires
        slot_size(job.slot_length, args.channels.count(channels)) <= usize::MAX,
    ensures
        ({
            let n = job.slot_map@.len();
            let slots = rendered_slots(*args, job.slot_length, samples@, channels, rate, n);
            r.0@ == (if args.no_normalize {
                slots
            } else {
                normalized(slots, target)
            })
        }),
        texts(r.1@) == Seq::new(
            job.slot_map@.len(),
            |i: int|
                slot_status_text(
                    rendered_slot(*args, job.slot_length, samples@, channels, rate, i as nat),
                ),
        ),
        are_cut_from(
            r.0@,
            texts(r.1@),
            *args,
            job.slot_length,
            job.slot_map@.len(),
            samples@,
            channels,
            rate,
            target,
        ),
{
    let out_channels: u16 = args.channels.resolve(channels);
    let frames: usize = length_frames(job.slot_length, rate);
    let fade_in: usize = milliseconds_to_frames(args.fade_in_ms);
    let fade_out: usize = milliseconds_to_frames(args.fade_ms);
    let n: usize = job.slot_map.len();
    let ghost all = Seq::new(
        n as nat,
        |i: int|
            slot_status_text(
                rendered_slot(*args, job.slot_length, samples@, channels, rate, i as nat),
            ),
    );
    let mut full: Vec<Binary32> = Vec::new();
    let mut statuses: Vec<String> = Vec::new();
    let mut i: usize = 0;
    while i < n
        invariant
            i <= n,
            out_channels == args.channels.count(channels),
            slot_size(job.slot_length, out_channels) <= usize::MAX,
            frames == frames_at(job.slot_length, rate),
            fade_in == ms_frames(args.fade_in_ms),
            fade_out == ms_frames(args.fade_ms),
            all == Seq::new(
                n as nat,
                |i: int|
                    slot_status_text(
                        rendered_slot(*args, job.slot_length, samples@, channels, rate, i as nat),
                    ),
            ),
            full@ == rendered_slots(*args, job.slot_length, samples@, channels, rate, i as nat),
            texts(statuses@) =~= all.take(i as int),
        decreases n - i,
    {
        let window = slot_of_chain(samples, i, frames, channels);
        proof {
            if rate == 0 {
                lemma_no_rate_has_no_frames(job.slot_length);
                assert(i * 0 * channel_count(channels) == 0);
                assert((i + 1) * 0 * channel_count(channels) == 0);
                assert(window@.len() == 0);
            }
        }
        let mut slot = finalize_slot(
            window.as_slice(),
            rate,
            channels,
            out_channels,
            job.slot_length,
            Binary32 { bits: 0 },
            0,
        );
        apply_start_fade(&mut slot, out_channels, fade_in);
        apply_end_fade(&mut slot, out_channels, fade_out);
        let ghost before = texts(statuses@);
        let status = slot_status(slot.as_slice());
        statuses.push(status);
        assert(texts(statuses@) =~= before.push(status@));
        append_samples(&mut full, slot.as_slice());
        i += 1;
    }
    assert(all.take(n as int) =~= all);
    proof {
        let frames = frames_at(job.slot_length, 44_100) as int;
        lemma_statuses_of_chain(*args, job.slot_length, samples@, channels, rate, n as nat);
        if rate == 44_100 {
            lemma_chain_between_fades(*args, job.slot_length, samples@, channels, n as nat);
        }
        assert(slot_size(job.slot_length, out_channels) == frames * out_channels);
        assert(are_statuses_of(texts(statuses@), full@, frames * out_channels));
    }
    if !args.no_normalize {
        normalize_peak(&mut full, target);
    }
    (full, statuses)
}

/// Appends samples to a buffer.
pub(crate) fn append_samples(buffer: &mut Vec<Binary32>, samples: &[Binary32])
    ensures
        final(buffer)@ == old(buffer)@ + samples@,
{
    let ghost before = buffer@;
    let mut k: usize = 0;
    while k < samples.len()
        invariant
            k <= samples.len(),
            buffer@ =~= before + samples@.take(k as int),
        decreases samples.len() - k,
    {
        buffer.push(samples[k]);
        k += 1;
    }
    assert(samples@.take(k as int) =~= samples@);
}

/// Every slot of an offline rendered chain has the same size, and slice `i` of the
/// chain is slot `i`.
#[verifier::rlimit(50)]
pub proof fn lemma_slices_are_slots(
    args: RenderSfzArgs,
    slot_length: Binary64,
    samples: Seq<Binary32>,
    channels: u16,
    rate: u32,
    n: nat,
    i: nat,
)
    requires
        i < n,
    ensures
        ({
            let size = slot_size(slot_length, args.channels.count(channels)) as int;
            let chain = rendered_slots(args, slot_length, samples, channels, rate, n);
            &&& chain.len() == n * size
            &&& chain.subrange(i * size, (i + 1) * size) == rendered_slot(
                args,
                slot_length,
                samples,
                channels,
                rate,
                i,
            )
        }),
    decreases n,
{
    let size = slot_size(slot_length, args.channels.count(channels)) as int;
    let chain = rendered_slots(args, slot_length, samples, channels, rate, n);
    let front = rendered_slots(args, slot_length, samples, channels, rate, (n - 1) as nat);
    let last = rendered_slot(args, slot_length, samples, channels, rate, (n - 1) as nat);
    assert(last.len() == size);
    assert(front.len() == (n - 1) * size) by {
        if n > 1 {
            lemma_slices_are_slots(args, slot_length, samples, channels, rate, (n - 1) as nat, 0);
        } else {
            assert(0 * size == 0);
        }
    }
    assert((n - 1) * size + size == n * size) by (nonlinear_arith);
    assert((i + 1) * size == i * size + size) by (nonlinear_arith);
    if i < n - 1 {
        lemma_slices_are_slots(args, slot_length, samples, channels, rate, (n - 1) as nat, i);
        assert((i + 1) * size <= (n - 1) * size) by (nonlinear_arith)
            requires
                i + 1 <= n - 1,
                size >= 0,
        ;
        assert(0 <= i * size) by (nonlinear_arith)
            requires
                size >= 0,
        ;
        assert(chain.subrange(i * size, (i + 1) * size) =~= front.subrange(
            i * size,
            (i + 1) * size,
        ));
    } else {
        assert(chain.subrange(i * size, (i + 1) * size) =~= last);
    }
}

} // verus!
