//! What a run finds out before it renders: which notes sound, how long they ring
//! and how long a slot is therefore.
use crate::arith::plus;
use crate::audio::{
    channel_count, frames_at, last_sound_seconds, length_frames, slot_range, slot_window, tail_end,
};
use crate::cli::RenderSfzArgs;
use crate::hearing::{
    are_heard_notes, covers_rings, lemma_measurement_covers_rings, lemma_probe_hears_what_sounds,
};
use crate::layout::{first_positions, fit_roots, pick_spread, positions, spread};
use crate::level::{peak, peak_abs, Binary32};
use crate::number::{
    capped, lemma_whole_value_positive, nearest_whole, product, quotient, whole_value, Binary64,
    Dyadic, INFINITY, SIGN,
};
use crate::order::lemma_sum_covers;
use crate::render::{note_range, notes_between, within_budget};
use crate::render_sfz::{FontPrep, Job};
use crate::sfz::{
    build_chain_smf, chain_fits, chain_steps, fits_in_track, note_lists, smf_bytes, PPQ,
};
use crate::slots::{bare_slot, single_note_slots, slot_models, Slot};
use crate::takes::{
    jittered, lemma_clean_take, lemma_jitter_stays_close, slot_velocities, take_velocities,
};
use crate::tracks::{
    is_file_of, is_file_of_notes, lemma_single_notes_are_struck, plays_singly, slot_notes,
};
use vstd::prelude::*;

verus! {

/// A quarter of a second, the shortest slot that is chosen, as a binary64
/// pattern.
pub const QUARTER_BITS: u64 = 0x3FD0_0000_0000_0000;

/// A number held between a quarter of a second and a maximum, which is an upper
/// bound where it is the smaller one.
pub open spec fn clamped(x: Binary64, max: Binary64) -> Binary64 {
    if x.bits > max.bits || max.bits < QUARTER_BITS {
        max
    } else if x.bits < QUARTER_BITS {
        Binary64 { bits: QUARTER_BITS }
    } else {
        x
    }
}

/// The sum of a tail and a margin.
pub open spec fn with_margin(longest: Binary64, margin: Binary64) -> Binary64 {
    if margin.bits == SIGN {
        longest
    } else {
        plus(longest, margin)
    }
}

/// Adds the margin to the longest tail.
pub fn add_margin(longest: Binary64, margin: Binary64) -> (r: Binary64)
    requires
        longest.bits <= INFINITY,
        margin.is_non_negative(),
    ensures
        r == with_margin(longest, margin),
        r.bits <= INFINITY,
{
    if margin.bits == SIGN {
        longest
    } else {
        longest.after(margin)
    }
}

/// A tail and a margin make a length that covers either.
pub proof fn lemma_margin_covers(longest: Binary64, margin: Binary64)
    requires
        longest.bits <= INFINITY,
        margin.is_non_negative(),
    ensures
        longest.bits <= with_margin(longest, margin).bits <= INFINITY,
        with_margin(longest, margin).at_least(longest),
        with_margin(longest, margin).at_least(margin),
{
    if margin.bits != SIGN {
        lemma_sum_covers(longest, margin);
    }
}

/// The slot length that covers the longest tail plus a margin: at least a quarter
/// of a second, and never more than the maximum.
pub fn chosen_slot_length(longest: Binary64, margin: Binary64, max_slot_length: Binary64) -> (r: Binary64)
    requires
        longest.bits <= INFINITY,
        margin.is_non_negative(),
        max_slot_length.is_positive(),
    ensures
        r == clamped(with_margin(longest, margin), max_slot_length),
        r.bits <= max_slot_length.bits,
        r.bits >= QUARTER_BITS || r == max_slot_length,
        r.is_positive(),
{
    let wanted = add_margin(longest, margin);
    if wanted.bits > max_slot_length.bits || max_slot_length.bits < QUARTER_BITS {
        max_slot_length
    } else if wanted.bits < QUARTER_BITS {
        Binary64 { bits: QUARTER_BITS }
    } else {
        wanted
    }
}

/// The longer of two tails.
pub open spec fn longer_tail(a: Binary64, b: Binary64) -> Binary64 {
    if b.bits > a.bits {
        b
    } else {
        a
    }
}

/// The longer of two tails.
pub fn longer(a: Binary64, b: Binary64) -> (r: Binary64)
    requires
        a.bits <= INFINITY,
        b.bits <= INFINITY,
    ensures
        r == longer_tail(a, b),
        r.at_least(a),
        r.at_least(b),
{
    if b.bits > a.bits {
        b
    } else {
        a
    }
}

/// The longest of some tails; nothing where there is none.
pub open spec fn longest_of(tails: Seq<Binary64>) -> Binary64
    decreases tails.len(),
{
    if tails.len() == 0 {
        Binary64 { bits: 0 }
    } else {
        longer_tail(longest_of(tails.drop_last()), tails.last())
    }
}

/// Whether every tail is a number that is not negative.
pub open spec fn are_tails(tails: Seq<Binary64>) -> bool {
    forall|i: int| 0 <= i < tails.len() ==> (#[trigger] tails[i]).bits <= INFINITY
}

/// The longest tail is at least every tail taken, and one of them where there is
/// any.
pub proof fn lemma_longest_is_greatest(tails: Seq<Binary64>)
    requires
        are_tails(tails),
    ensures
        longest_of(tails).bits <= INFINITY,
        forall|i: int| 0 <= i < tails.len() ==> longest_of(tails).at_least(#[trigger] tails[i]),
        tails.len() == 0 ==> longest_of(tails).bits == 0,
        tails.len() > 0 ==> exists|i: int| 0 <= i < tails.len() && #[trigger] tails[i] == longest_of(tails),
    decreases tails.len(),
{
    if tails.len() > 0 {
        let front = tails.drop_last();
        let last = (tails.len() - 1) as int;
        assert forall|i: int| 0 <= i < front.len() implies (#[trigger] front[i]).bits <= INFINITY by {
            assert(front[i] == tails[i]);
        }
        lemma_longest_is_greatest(front);
        assert(tails[last].bits <= INFINITY);
        assert forall|i: int| 0 <= i < tails.len() implies longest_of(tails).at_least(
            #[trigger] tails[i],
        ) by {
            if i < last {
                assert(front[i] == tails[i]);
                assert(longest_of(front).at_least(front[i]));
            }
        }
        if longest_of(tails) == tails[last] {
        } else if front.len() > 0 {
            let k = choose|k: int| 0 <= k < front.len() && #[trigger] front[k] == longest_of(front);
            assert(tails[k] == longest_of(tails));
        }
    }
}

/// The chosen slot length covers the longest tail plus the margin, and with it
/// every tail, unless it is the maximum.
pub proof fn lemma_chosen_length_covers_tails(
    tails: Seq<Binary64>,
    margin: Binary64,
    max: Binary64,
)
    requires
        are_tails(tails),
        margin.is_non_negative(),
        max.is_positive(),
    ensures
        ({
            let wanted = with_margin(longest_of(tails), margin);
            let chosen = clamped(wanted, max);
            &&& max.at_least(chosen)
            &&& chosen == max || chosen.at_least(wanted)
            &&& chosen == max || forall|i: int|
                0 <= i < tails.len() ==> chosen.at_least(#[trigger] tails[i])
            &&& wanted.at_least(max) ==> chosen == max
            &&& chosen == max || chosen.bits >= QUARTER_BITS
        }),
{
    lemma_longest_is_greatest(tails);
    lemma_margin_covers(longest_of(tails), margin);
}

/// The longest of some tails.
pub fn longest_among(tails: &[Binary64]) -> (r: Binary64)
    requires
        are_tails(tails@),
    ensures
        r == longest_of(tails@),
        r.bits <= INFINITY,
        forall|i: int| 0 <= i < tails@.len() ==> r.at_least(#[trigger] tails@[i]),
{
    let mut longest = Binary64 { bits: 0 };
    let mut i: usize = 0;
    while i < tails.len()
        invariant
            i <= tails.len(),
            are_tails(tails@),
            longest == longest_of(tails@.take(i as int)),
            longest.bits <= INFINITY,
        decreases tails.len() - i,
    {
        assert(tails@.take(i + 1).drop_last() =~= tails@.take(i as int));
        assert(tails@[i as int].bits <= INFINITY);
        longest = longer(longest, tails[i]);
        i += 1;
    }
    proof {
        assert(tails@.take(i as int) =~= tails@);
        lemma_longest_is_greatest(tails@);
    }
    longest
}

/// Whether the chosen slot length is the maximum because the tail asks for as
/// much.
pub fn hits_cap(longest: Binary64, margin: Binary64, max_slot_length: Binary64) -> (r: bool)
    requires
        longest.bits <= INFINITY,
        margin.is_non_negative(),
    ensures
        r == with_margin(longest, margin).at_least(max_slot_length),
{
    add_margin(longest, margin).reaches(max_slot_length)
}

/// A length in whole milliseconds, as far as 32 bits hold it.
pub open spec fn ms_of(length: Binary64) -> u32 {
    capped(length.scaled(1000), u32::MAX as nat) as u32
}

/// A length in whole milliseconds.
pub fn length_ms(length: Binary64) -> (r: u32)
    requires
        length.is_non_negative(),
    ensures
        r == ms_of(length),
{
    let ms: u64 = length.scale(1000);
    if ms > u32::MAX as u64 {
        u32::MAX
    } else {
        ms as u32
    }
}

/// The low 32 bits of a count.
pub open spec fn low_bits(n: u64) -> u32 {
    (n as int % 0x1_0000_0000) as u32
}

/// The MIDI file of a chain, where it can be written as one.
pub fn chain_file(slots: &Vec<Slot>, slot_ms: u32, note_ms: u32, velocities: &[u8]) -> (r: Option<
    Vec<u8>,
>)
    ensures
        r is Some <==> chain_fits(note_lists(slots@), slot_ms, note_ms),
        r matches Some(bytes) ==> bytes@ == smf_bytes(
            PPQ,
            chain_steps(note_lists(slots@), slot_ms, note_ms, velocities@),
        ),
        r matches Some(bytes) ==> velocities.len() >= slots.len() ==> is_file_of(
            bytes@,
            slot_notes(slots@),
            velocities@,
            slot_ms as int,
            note_ms as int,
        ),
{
    if fits_in_track(slots, slot_ms, note_ms) {
        Some(build_chain_smf(slots, slot_ms, note_ms, velocities))
    } else {
        None
    }
}

/// The note lists of single notes.
pub open spec fn single_lists(notes: Seq<u8>) -> Seq<Seq<u8>> {
    notes.map_values(|n: u8| seq![n])
}

/// One velocity for every slot.
pub open spec fn same_velocity(n: nat, velocity: u8) -> Seq<u8> {
    Seq::new(n, |i: int| velocity)
}

/// The MIDI file of a chain of single notes at one velocity.
fn single_note_file(notes: &[u8], slot_ms: u32, note_ms: u32, velocity: u8) -> (r: Option<Vec<u8>>)
    ensures
        r is Some <==> chain_fits(single_lists(notes@), slot_ms, note_ms),
        r matches Some(bytes) ==> bytes@ == smf_bytes(
            PPQ,
            chain_steps(
                single_lists(notes@),
                slot_ms,
                note_ms,
                same_velocity(notes@.len(), velocity),
            ),
        ),
        r matches Some(bytes) ==> is_file_of_notes(
            bytes@,
            notes@,
            velocity,
            slot_ms as int,
            note_ms as int,
        ),
{
    let slots = single_note_slots(notes);
    let mut velocities: Vec<u8> = Vec::new();
    let mut i: usize = 0;
    while i < slots.len()
        invariant
            i <= slots.len(),
            velocities@ =~= same_velocity(i as nat, velocity),
        decreases slots.len() - i,
    {
        velocities.push(velocity);
        i += 1;
    }
    proof {
        let models = slot_models(slots@);
        assert forall|k: int| 0 <= k < slots@.len() implies #[trigger] note_lists(slots@)[k] == seq![
            notes@[k],
        ] by {
            assert(models[k] == slots@[k]@);
            assert(models[k] == bare_slot(k as nat, notes@[k]));
        }
        assert(note_lists(slots@) =~= single_lists(notes@));
        if chain_fits(single_lists(notes@), slot_ms, note_ms) {
            lemma_listed_notes_are_struck(notes@, slot_ms, note_ms, velocity);
        }
    }
    chain_file(&slots, slot_ms, note_ms, velocities.as_slice())
}

/// A chain of single notes strikes every one of them on the boundary of its slot
/// with the velocity that it is given, and nothing with another one.
pub proof fn lemma_listed_notes_are_struck(
    notes: Seq<u8>,
    slot_ms: u32,
    note_ms: u32,
    velocity: u8,
)
    requires
        chain_fits(single_lists(notes), slot_ms, note_ms),
    ensures
        plays_singly(
            chain_steps(
                single_lists(notes),
                slot_ms,
                note_ms,
                same_velocity(notes.len(), velocity),
            ),
            notes,
            velocity,
            slot_ms as int,
            note_ms as int,
        ),
{
    lemma_single_notes_are_struck(
        notes,
        slot_ms,
        note_ms,
        single_lists(notes),
        same_velocity(notes.len(), velocity),
        velocity,
    );
}

/// How long a probed note is held, in milliseconds.
pub open spec fn probe_hold(probe_ms: u64) -> u64 {
    if probe_ms > 51 {
        (probe_ms - 50) as u64
    } else {
        1
    }
}

/// The MIDI file that sounds every note of the range briefly, where it can be
/// written.
pub fn probe_file(args: &RenderSfzArgs, velocity: u8) -> (r: Option<Vec<u8>>)
    ensures
        ({
            let notes = note_range(args.start_midi, args.end_midi);
            let slot_ms = low_bits(args.probe_ms);
            let note_ms = low_bits(probe_hold(args.probe_ms));
            &&& r is Some <==> chain_fits(single_lists(notes), slot_ms, note_ms)
            &&& r matches Some(bytes) ==> bytes@ == smf_bytes(
                PPQ,
                chain_steps(
                    single_lists(notes),
                    slot_ms,
                    note_ms,
                    same_velocity(notes.len(), velocity),
                ),
            )
        }),
        r matches Some(bytes) ==> args.start_midi <= args.end_midi && 51 < args.probe_ms <= u32::MAX
            ==> is_file_of_notes(
            bytes@,
            Seq::new(
                (args.end_midi - args.start_midi + 1) as nat,
                |i: int| (args.start_midi + i) as u8,
            ),
            velocity,
            args.probe_ms as int,
            args.probe_ms - 50,
        ),
        r matches Some(bytes) ==> args.start_midi <= args.end_midi && args.probe_ms <= 51
            ==> is_file_of_notes(
            bytes@,
            Seq::new(
                (args.end_midi - args.start_midi + 1) as nat,
                |i: int| (args.start_midi + i) as u8,
            ),
            velocity,
            args.probe_ms as int,
            1,
        ),
{
    let notes = notes_between(args.start_midi, args.end_midi);
    proof {
        if args.start_midi <= args.end_midi {
            assert(notes@ =~= Seq::new(
                (args.end_midi - args.start_midi + 1) as nat,
                |i: int| (args.start_midi + i) as u8,
            ));
        }
    }
    let hold: u64 = if args.probe_ms > 51 {
        args.probe_ms - 50
    } else {
        1
    };
    let slot_ms: u32 = (args.probe_ms % 0x1_0000_0000) as u32;
    let note_ms: u32 = (hold % 0x1_0000_0000) as u32;
    single_note_file(notes.as_slice(), slot_ms, note_ms, velocity)
}

/// How many frames a probed note takes in the rendered probe.
pub open spec fn probe_frames(probe_ms: u64, rate: u32) -> nat {
    capped(
        nearest_whole(
            product(
                quotient(whole_value(probe_ms as nat), whole_value(1000)),
                whole_value(rate as nat),
            ),
        ),
        usize::MAX as nat,
    )
}

/// The samples of slot `i` of a rendered chain.
pub open spec fn window_samples(samples: Seq<Binary32>, i: nat, frames: nat, channels: u16) -> Seq<
    Binary32,
> {
    let w = slot_window(i, frames, channel_count(channels), samples.len());
    samples.subrange(w.0 as int, w.1 as int)
}

/// Copies the samples of slot `i` of a rendered chain.
pub fn slot_of_chain(samples: &[Binary32], i: usize, frames: usize, channels: u16) -> (r: Vec<Binary32>)
    requires
        i < usize::MAX,
    ensures
        r@ == window_samples(samples@, i as nat, frames as nat, channels),
{
    let (start, end) = slot_range(i, frames, channels, samples.len());
    let mut out: Vec<Binary32> = Vec::new();
    let mut k: usize = start;
    while k < end
        invariant
            start <= k <= end,
            end <= samples.len(),
            out@ =~= samples@.subrange(start as int, k as int),
        decreases end - k,
    {
        out.push(samples[k]);
        k += 1;
    }
    out
}

/// The notes of the first `n` whose slot of a rendered probe reaches a level.
pub open spec fn sounding_notes(
    notes: Seq<u8>,
    samples: Seq<Binary32>,
    frames: nat,
    channels: u16,
    threshold: Binary32,
    n: nat,
) -> Seq<u8>
    decreases n,
{
    if n == 0 {
        Seq::empty()
    } else {
        let before = sounding_notes(notes, samples, frames, channels, threshold, (n - 1) as nat);
        if peak(window_samples(samples, (n - 1) as nat, frames, channels)).at_least(threshold) {
            before.push(notes[n - 1])
        } else {
            before
        }
    }
}

/// The notes of a rendered probe whose peak reaches the probe threshold.
pub fn probe_hits(args: &RenderSfzArgs, samples: &[Binary32], channels: u16, rate: u32) -> (r: Vec<u8>)
    ensures
        ({
            let notes = note_range(args.start_midi, args.end_midi);
            r@ == sounding_notes(
                notes,
                samples@,
                probe_frames(args.probe_ms, rate),
                channels,
                args.probe_threshold.value,
                notes.len(),
            )
        }),
        channels >= 1 && !args.probe_threshold.value.is_nan() && args.probe_threshold.value.rank() > 0
            ==> are_heard_notes(
            r@,
            args.start_midi,
            args.end_midi,
            samples@,
            channels,
            probe_frames(args.probe_ms, rate),
            args.probe_threshold.value,
        ),
{
    proof {
        let level = args.probe_threshold.value;
        if channels >= 1 && !level.is_nan() && level.rank() > 0 {
            lemma_probe_hears_what_sounds(
                args.start_midi,
                args.end_midi,
                samples@,
                channels,
                probe_frames(args.probe_ms, rate),
                level,
            );
        }
    }
    let notes = notes_between(args.start_midi, args.end_midi);
    proof {
        lemma_whole_value_positive(1000);
    }
    let seconds = Dyadic::from_whole(args.probe_ms as u128).over(Dyadic::from_whole(1000));
    let wide: u64 = seconds.times(Dyadic::from_whole(rate as u128)).nearest();
    let frames: usize = if wide > usize::MAX as u64 {
        usize::MAX
    } else {
        wide as usize
    };
    let mut out: Vec<u8> = Vec::new();
    let mut i: usize = 0;
    while i < notes.len()
        invariant
            i <= notes.len(),
            frames == probe_frames(args.probe_ms, rate),
            out@ == sounding_notes(
                notes@,
                samples@,
                frames as nat,
                channels,
                args.probe_threshold.value,
                i as nat,
            ),
        decreases notes.len() - i,
    {
        let window = slot_of_chain(samples, i, frames, channels);
        if peak_abs(window.as_slice()).reaches(args.probe_threshold.value) {
            out.push(notes[i]);
        }
        i += 1;
    }
    out
}

/// The notes that a font is measured and packed by: those that sound, or the full
/// range without a probe and where nothing sounded.
pub open spec fn font_pool(args: RenderSfzArgs, sounding: Option<Vec<u8>>) -> Seq<u8> {
    match sounding {
        Some(s) => if s@.len() > 0 {
            s@
        } else {
            note_range(args.start_midi, args.end_midi)
        },
        None => note_range(args.start_midi, args.end_midi),
    }
}

/// The notes that a font is measured and packed by.
pub fn pool_of(args: &RenderSfzArgs, sounding: &Option<Vec<u8>>) -> (r: Vec<u8>)
    ensures
        r@ == font_pool(*args, *sounding),
{
    if let Some(s) = sounding {
        if s.len() > 0 {
            return crate::chord_files::copy_notes(s.as_slice());
        }
    }
    notes_between(args.start_midi, args.end_midi)
}

/// The notes of a pool that are measured.
pub open spec fn measured_notes(pool: Seq<u8>, count: nat) -> Seq<u8> {
    spread(positions(pool.len()), count).map_values(|i: usize| pool[i as int])
}

/// Picks the notes of a pool that are measured.
pub fn notes_to_measure(pool: &[u8], count: usize) -> (r: Vec<u8>)
    ensures
        r@ == measured_notes(pool@, count as nat),
{
    let all = first_positions(pool.len());
    let picks = pick_spread(all.as_slice(), count);
    proof {
        crate::layout::lemma_spread_stays_in_list(all@, count as nat);
    }
    let mut out: Vec<u8> = Vec::new();
    let mut i: usize = 0;
    while i < picks.len()
        invariant
            i <= picks.len(),
            all@ == positions(pool.len() as nat),
            forall|k: int| 0 <= k < picks.len() ==> all@.contains(#[trigger] picks@[k]),
            out@ =~= picks@.take(i as int).map_values(|k: usize| pool@[k as int]),
        decreases picks.len() - i,
    {
        proof {
            assert(all@.contains(picks@[i as int]));
        }
        out.push(pool[picks[i]]);
        i += 1;
    }
    assert(picks@.take(i as int) =~= picks@);
    out
}

/// The MIDI file that sounds the measured notes far enough apart, where it can be
/// written.
pub fn measure_file(args: &RenderSfzArgs, notes: &[u8], velocity: u8) -> (r: Option<Vec<u8>>)
    requires
        args.max_slot_length.value.is_positive(),
        args.note_length.value.is_positive(),
    ensures
        ({
            let slot_ms = ms_of(args.max_slot_length.value);
            let note_ms = ms_of(args.note_length.value);
            &&& r is Some <==> chain_fits(single_lists(notes@), slot_ms, note_ms)
            &&& r matches Some(bytes) ==> bytes@ == smf_bytes(
                PPQ,
                chain_steps(
                    single_lists(notes@),
                    slot_ms,
                    note_ms,
                    same_velocity(notes@.len(), velocity),
                ),
            )
            &&& r matches Some(bytes) ==> is_file_of_notes(
                bytes@,
                notes@,
                velocity,
                slot_ms as int,
                note_ms as int,
            )
        }),
{
    single_note_file(
        notes,
        length_ms(args.max_slot_length.value),
        length_ms(args.note_length.value),
        velocity,
    )
}

/// The tails of the `n` slots of a rendered measurement.
pub open spec fn measured_tails(
    samples: Seq<Binary32>,
    frames: nat,
    channels: u16,
    rate: u32,
    threshold: Binary32,
    n: nat,
) -> Seq<Binary64> {
    Seq::new(
        n,
        |i: int|
            tail_end(window_samples(samples, i as nat, frames, channels), rate, channels, threshold),
    )
}

/// The slot length for a font whose measurement was rendered: the longest tail of
/// its `count` slots plus the margin, at least a quarter of a second and never more
/// than the maximum.
pub fn measured_slot_length(
    args: &RenderSfzArgs,
    samples: &[Binary32],
    channels: u16,
    rate: u32,
    count: usize,
) -> (r: Binary64)
    requires
        args.slot_margin.value.is_non_negative(),
        args.max_slot_length.value.is_positive(),
    ensures
        ({
            let tails = measured_tails(
                samples@,
                frames_at(args.max_slot_length.value, rate),
                channels,
                rate,
                args.decay_threshold.value,
                count as nat,
            );
            let wanted = with_margin(longest_of(tails), args.slot_margin.value);
            &&& r == clamped(wanted, args.max_slot_length.value)
            &&& r == args.max_slot_length.value || r.at_least(wanted)
            &&& forall|i: int|
                0 <= i < count ==> longest_of(tails).at_least(#[trigger] tails[i])
        }),
        channels >= 1 ==> covers_rings(
            r,
            samples@,
            channels,
            frames_at(args.max_slot_length.value, rate),
            rate,
            args.decay_threshold.value,
            count as int,
            args.slot_margin.value,
            args.max_slot_length.value,
        ),
        r.bits <= args.max_slot_length.value.bits,
        r.is_positive(),
{
    let frames: usize = length_frames(args.max_slot_length.value, rate);
    let mut tails: Vec<Binary64> = Vec::new();
    let mut i: usize = 0;
    while i < count
        invariant
            i <= count,
            are_tails(tails@),
            frames == frames_at(args.max_slot_length.value, rate),
            tails@ =~= measured_tails(
                samples@,
                frames as nat,
                channels,
                rate,
                args.decay_threshold.value,
                i as nat,
            ),
        decreases count - i,
    {
        let window = slot_of_chain(samples, i, frames, channels);
        let tail = last_sound_seconds(
            window.as_slice(),
            rate,
            channels,
            args.decay_threshold.value,
        );
        tails.push(tail);
        i += 1;
    }
    proof {
        lemma_chosen_length_covers_tails(
            tails@,
            args.slot_margin.value,
            args.max_slot_length.value,
        );
        if channels >= 1 {
            assert(samples.len() == samples@.len());
            lemma_measurement_covers_rings(
                samples@,
                channels,
                frames as nat,
                rate,
                args.decay_threshold.value,
                count as nat,
                args.slot_margin.value,
                args.max_slot_length.value,
            );
        }
    }
    let longest = longest_among(tails.as_slice());
    chosen_slot_length(longest, args.slot_margin.value, args.max_slot_length.value)
}

/// Whether the sounding range is probed: for packed chords and to focus the
/// measurement, unless that is switched off.
pub open spec fn probes(args: RenderSfzArgs) -> bool {
    !args.no_probe && (args.chords is Some || args.auto_slot_length)
}

/// Whether the sounding range is probed.
pub fn needs_probe(args: &RenderSfzArgs) -> (r: bool)
    ensures
        r == probes(*args),
{
    !args.no_probe && (args.chords.is_some() || args.auto_slot_length)
}

/// The loudest of some velocities, 100 where there is none.
pub open spec fn loudest(velocities: Seq<u8>) -> u8
    decreases velocities.len(),
{
    if velocities.len() == 0 {
        100
    } else if velocities.len() == 1 {
        velocities[0]
    } else {
        let before = loudest(velocities.drop_last());
        if velocities.last() > before {
            velocities.last()
        } else {
            before
        }
    }
}

/// The velocity that fonts are probed and measured with.
pub fn measuring_velocity(velocities: &[u8]) -> (r: u8)
    ensures
        r == loudest(velocities@),
{
    if velocities.len() == 0 {
        return 100;
    }
    let mut most: u8 = velocities[0];
    let mut i: usize = 1;
    assert(velocities@.take(1)[0] == most);
    while i < velocities.len()
        invariant
            1 <= i <= velocities.len(),
            most == loudest(velocities@.take(i as int)),
        decreases velocities.len() - i,
    {
        assert(velocities@.take(i + 1).drop_last() =~= velocities@.take(i as int));
        if velocities[i] > most {
            most = velocities[i];
        }
        i += 1;
    }
    assert(velocities@.take(i as int) =~= velocities@);
    most
}

/// What the analysis of a font comes to: the measured slot length where it was
/// measured, and the sounding notes as chord roots, capped to the slice budget.
/// `sounding` is what a probe found, `measured` what a measurement did.
pub fn font_prep(args: &RenderSfzArgs, sounding: &Option<Vec<u8>>, measured: Option<Binary64>) -> (r:
    FontPrep)
    ensures
        r.slot_length == (match measured {
            Some(length) => length,
            None => args.slot_length.value,
        }),
        r.chord_roots@ == within_budget(font_pool(*args, *sounding), args.max_slices as nat),
{
    let pool = pool_of(args, sounding);
    let chord_roots = if pool.len() > args.max_slices {
        fit_roots(pool.as_slice(), args.max_slices)
    } else {
        pool
    };
    let slot_length = match measured {
        Some(length) => length,
        None => args.slot_length.value,
    };
    FontPrep { slot_length, chord_roots }
}

/// The analyses that a preview goes by: the fixed slot length and the full range
/// for every font.
pub fn preview_preps(args: &RenderSfzArgs) -> (r: Vec<FontPrep>)
    ensures
        r.len() == args.sfz.len(),
        forall|i: int|
            0 <= i < r.len() ==> (#[trigger] r[i]).slot_length == args.slot_length.value
                && r[i].chord_roots@ == note_range(args.start_midi, args.end_midi),
{
    let mut out: Vec<FontPrep> = Vec::new();
    let mut i: usize = 0;
    while i < args.sfz.len()
        invariant
            i <= args.sfz.len(),
            out.len() == i,
            forall|k: int|
                0 <= k < out.len() ==> (#[trigger] out[k]).slot_length == args.slot_length.value
                    && out[k].chord_roots@ == note_range(args.start_midi, args.end_midi),
        decreases args.sfz.len() - i,
    {
        out.push(
            FontPrep {
                slot_length: args.slot_length.value,
                chord_roots: notes_between(args.start_midi, args.end_midi),
            },
        );
        i += 1;
    }
    out
}

/// Whether velocities are those of a take: the clean take strikes as hard as its job
/// asks for, a later one as far from that as its number and the slot say, but no further
/// than the jitter: the one given, or else eight where there is more than one take.
pub open spec fn are_of_take(velocities: Seq<u8>, job: Job, args: RenderSfzArgs) -> bool {
    forall|i: int|
        0 <= i < velocities.len() ==> {
            let v = #[trigger] velocities[i];
            if job.variation == 0 {
                v == job.velocity
            } else {
                let most: int = match args.velocity_jitter {
                    Some(j) => j as int,
                    None => if args.variations > 1 {
                        8
                    } else {
                        0
                    },
                };
                &&& most == 0 ==> v == job.velocity
                &&& most > 0 ==> 1 <= v <= 127
                &&& 1 <= job.velocity <= 127 ==> job.velocity - most <= v <= job.velocity + most
                &&& most > 0 ==> v == jittered(job.velocity, most as u8, job.variation, i as u64)
            }
        }
}

/// The MIDI file of a job, where it can be written: its slots at its slot length,
/// each at the velocity that the take gives it.
pub fn job_file(job: &Job, args: &RenderSfzArgs) -> (r: Option<Vec<u8>>)
    requires
        job.slot_length.is_non_negative(),
        args.note_length.value.is_positive(),
    ensures
        ({
            let lists = note_lists(job.slot_map@);
            let slot_ms = ms_of(job.slot_length);
            let note_ms = ms_of(args.note_length.value);
            &&& r is Some <==> chain_fits(lists, slot_ms, note_ms)
            &&& r matches Some(bytes) ==> bytes@ == smf_bytes(
                PPQ,
                chain_steps(
                    lists,
                    slot_ms,
                    note_ms,
                    take_velocities(
                        lists.len(),
                        job.velocity,
                        args.jitter(),
                        job.variation,
                    ),
                ),
            )
            &&& r matches Some(bytes) ==> exists|velocities: Seq<u8>|
                #[trigger] is_file_of(
                    bytes@,
                    slot_notes(job.slot_map@),
                    velocities,
                    slot_ms as int,
                    note_ms as int,
                ) && velocities.len() == job.slot_map@.len() && are_of_take(velocities, *job, *args)
        }),
{
    let velocities = slot_velocities(
        job.slot_map.len(),
        job.velocity,
        args.effective_jitter(),
        job.variation,
    );
    assert(are_of_take(velocities@, *job, *args)) by {
        assert forall|i: int| 0 <= i < velocities@.len() implies {
            let v = #[trigger] velocities@[i];
            if job.variation == 0 {
                v == job.velocity
            } else {
                let most: int = match args.velocity_jitter {
                    Some(j) => j as int,
                    None => if args.variations > 1 {
                        8
                    } else {
                        0
                    },
                };
                &&& most == 0 ==> v == job.velocity
                &&& most > 0 ==> 1 <= v <= 127
                &&& 1 <= job.velocity <= 127 ==> job.velocity - most <= v <= job.velocity + most
                &&& most > 0 ==> v == jittered(job.velocity, most as u8, job.variation, i as u64)
            }
        } by {
            let jitter = args.jitter();
            if job.variation == 0 || jitter == 0 {
                lemma_clean_take(velocities@.len(), job.velocity, jitter, job.variation, i);
            } else {
                lemma_jitter_stays_close(velocities@.len(), job.velocity, jitter, job.variation, i);
            }
        }
    }
    chain_file(
        &job.slot_map,
        length_ms(job.slot_length),
        length_ms(args.note_length.value),
        velocities.as_slice(),
    )
}

} // verus!
