//! How far the arguments of a run may go: what becomes of valid ones when one of them is
//! changed.
use crate::arg_error::ArgError;
use crate::chords::ChordQuality;
use crate::cli::{is_sfz, RenderArgs, RenderSfzArgs};
use vstd::prelude::*;

verus! {

/// Of a live run the velocity may be any up to 127, the channel any from 1 to 16 and the
/// test note any up to 127; another one is refused by its own error.
pub proof fn lemma_live_messages_are_midi(args: RenderArgs, n: u8)
    requires
        args.valid(),
    ensures
        (RenderArgs { velocity: n, ..args }).valid() <==> n <= 127,
        n > 127 ==> (RenderArgs { velocity: n, ..args }).fault() == Some(ArgError::Velocity(n)),
        (RenderArgs { channel: n, ..args }).valid() <==> 1 <= n <= 16,
        n == 0 || n > 16 ==> (RenderArgs { channel: n, ..args }).fault() == Some(ArgError::Channel(n)),
        (RenderArgs { test_note: Some(n), ..args }).valid() <==> n <= 127,
        n > 127 ==> (RenderArgs { test_note: Some(n), ..args }).fault() == Some(ArgError::TestNote(n)),
        (RenderArgs { test_note: None, ..args }).valid(),
{
}

/// The notes of a live run may be any range of MIDI notes that holds one.
pub proof fn lemma_live_notes_are_midi(args: RenderArgs, first: u8, last: u8)
    requires
        args.valid(),
    ensures
        ({
            let other = RenderArgs { start_midi: first, end_midi: last, ..args };
            &&& other.valid() <==> first <= last <= 127
            &&& first > 127 || last > 127 ==> other.fault() == Some(ArgError::NoteRange)
            &&& last < first <= 127 ==> other.fault() == Some(ArgError::NoteOrder(first, last))
        }),
{
}

/// A live run records at 44.1 kHz, probes for some time, and measures some notes where
/// it measures.
pub proof fn lemma_live_counts_are_positive(args: RenderArgs, rate: u32, ms: u64, notes: u8)
    requires
        args.valid(),
    ensures
        (RenderArgs { sample_rate: rate, ..args }).valid() <==> rate == 44_100,
        rate != 44_100 ==> (RenderArgs { sample_rate: rate, ..args }).fault() == Some(
            ArgError::InputRate(rate),
        ),
        (RenderArgs { probe_ms: ms, ..args }).valid() <==> ms > 0,
        (RenderArgs { measure_notes: notes, ..args }).valid() <==> notes > 0 || !args.auto_slot_length,
{
}

/// A live run has one MIDI output, given or virtual.
pub proof fn lemma_live_output_is_one(args: RenderArgs, name: String)
    requires
        args.valid(),
    ensures
        (RenderArgs { midi_output: Some(name), virtual_midi: false, ..args }).valid(),
        (RenderArgs { midi_output: None, virtual_midi: true, ..args }).valid(),
        (RenderArgs { midi_output: Some(name), virtual_midi: true, ..args }).fault() == Some(
            ArgError::TwoMidiOutputs,
        ),
        (RenderArgs { midi_output: None, virtual_midi: false, ..args }).fault() == Some(
            ArgError::NoMidiOutput,
        ),
{
}

/// Packed chords of a live run take from 1 to 255 slices a file, are not asked for
/// together with one chord on every note, and are split by chord or by octave, not by
/// both; without them nothing is split.
pub proof fn lemma_live_chords_are_bounded(
    args: RenderArgs,
    list: Vec<ChordQuality>,
    q: ChordQuality,
    slices: usize,
    by_chord: bool,
    by_octave: bool,
)
    requires
        args.valid(),
    ensures
        ({
            let packed = RenderArgs {
                chord: None,
                chords: Some(list),
                max_slices: slices,
                file_per_chord: by_chord,
                per_octave: by_octave,
                ..args
            };
            packed.valid() <==> 1 <= slices <= 255 && !(by_chord && by_octave)
        }),
        ({
            let single = RenderArgs {
                chord: Some(q),
                chords: None,
                max_slices: slices,
                file_per_chord: by_chord,
                per_octave: by_octave,
                ..args
            };
            single.valid() <==> !by_chord && !by_octave
        }),
        (RenderArgs { chord: Some(q), chords: Some(list), ..args }).fault() == Some(
            ArgError::TwoChordModes,
        ),
{
}

/// Of an offline run the velocity may be any up to 127, alone and in a list, and the
/// notes any range of MIDI notes that holds one.
pub proof fn lemma_offline_messages_are_midi(
    args: RenderSfzArgs,
    n: u8,
    list: Vec<u8>,
    first: u8,
    last: u8,
)
    requires
        args.valid(),
    ensures
        (RenderSfzArgs { velocity: n, ..args }).valid() <==> n <= 127,
        (RenderSfzArgs { velocities: Some(list), ..args }).valid() <==> list@.len() > 0 && forall|i: int|
            0 <= i < list@.len() ==> #[trigger] list@[i] <= 127,
        (RenderSfzArgs { velocities: None, ..args }).valid(),
        (RenderSfzArgs { start_midi: first, end_midi: last, ..args }).valid() <==> first <= last <= 127,
{
}

/// An offline run renders at 44.1 kHz, some takes with some workers, of some instrument
/// files that are each an `.sfz` file.
pub proof fn lemma_offline_counts_are_positive(
    args: RenderSfzArgs,
    rate: u32,
    takes: u32,
    workers: usize,
    files: Vec<String>,
)
    requires
        args.valid(),
    ensures
        (RenderSfzArgs { sample_rate: rate, ..args }).valid() <==> rate == 44_100,
        (RenderSfzArgs { variations: takes, ..args }).valid() <==> takes >= 1,
        (RenderSfzArgs { jobs: Some(workers), ..args }).valid() <==> workers >= 1,
        (RenderSfzArgs { jobs: None, ..args }).valid(),
        (RenderSfzArgs { sfz: files, ..args }).valid() <==> files@.len() > 0 && forall|i: int|
            0 <= i < files@.len() ==> is_sfz(#[trigger] files@[i]@),
{
}

/// Packed chords of an offline run take from 1 to 255 slices a file, are not asked for
/// together with one chord on every note, and are split by chord or by octave, not by
/// both.
pub proof fn lemma_offline_chords_are_bounded(
    args: RenderSfzArgs,
    list: Vec<ChordQuality>,
    q: ChordQuality,
    slices: usize,
    by_chord: bool,
    by_octave: bool,
)
    requires
        args.valid(),
    ensures
        ({
            let packed = RenderSfzArgs {
                chord: None,
                chords: Some(list),
                max_slices: slices,
                file_per_chord: by_chord,
                per_octave: by_octave,
                ..args
            };
            packed.valid() <==> 1 <= slices <= 255 && !(by_chord && by_octave)
        }),
        ({
            let single = RenderSfzArgs {
                chord: Some(q),
                chords: None,
                max_slices: slices,
                file_per_chord: by_chord,
                per_octave: by_octave,
                ..args
            };
            single.valid() <==> !by_chord
        }),
        !(RenderSfzArgs { chord: Some(q), chords: Some(list), ..args }).valid(),
{
}

} // verus!
