//! What is wrong with the arguments of a run, and the message that says so.
use crate::text::{decimal, decimal_text};
use vstd::prelude::*;

verus! {

/// Why the arguments of a run are refused.
#[derive(Debug)]
pub enum ArgError {
    /// Both a MIDI output and the virtual port were asked for.
    TwoMidiOutputs,
    /// Neither a MIDI output nor the virtual port was asked for.
    NoMidiOutput,
    /// A velocity above 127.
    Velocity(u8),
    /// A MIDI channel outside 1 to 16.
    Channel(u8),
    /// A slot length that is not greater than zero.
    SlotLength(String),
    /// A note length that is not greater than zero.
    NoteLength(String),
    /// A sample rate other than 44100 for a live render.
    InputRate(u32),
    /// A sample rate other than 44100 for an offline render.
    EngineRate(u32),
    /// A first or last note above 127.
    NoteRange,
    /// A first note above the last one.
    NoteOrder(u8, u8),
    /// A test note above 127.
    TestNote(u8),
    /// A probe without duration.
    ProbeMs,
    /// A probe threshold below zero.
    ProbeThreshold(String),
    /// A longest slot length that is not greater than zero.
    MaxSlotLength(String),
    /// A measurement of no notes.
    MeasureNotes,
    /// A decay threshold below zero.
    DecayThreshold(String),
    /// A slot margin below zero.
    SlotMargin(String),
    /// Both a chord on every note and packed chords were asked for.
    TwoChordModes,
    /// One file per chord without packed chords.
    FilePerChord,
    /// One file per octave without packed chords.
    PerOctave,
    /// Both one file per octave and one per chord.
    OctaveAndChord,
    /// A slice budget of nothing.
    NoSlices,
    /// A slice budget above what the M8 takes.
    TooManySlices(usize),
    /// No instrument file.
    NoSfz,
    /// An instrument file of another kind.
    NotSfz(String),
    /// An empty list of velocities.
    NoVelocities,
    /// A listed velocity above 127.
    ListedVelocity(u8),
    /// No take at all.
    Variations,
    /// No worker at all.
    Jobs,
}

impl ArgError {
    /// The message for the user.
    pub open spec fn text(self) -> Seq<char> {
        match self {
            ArgError::TwoMidiOutputs => "use either --midi-output or --virtual-midi, not both"@,
            ArgError::NoMidiOutput => "specify a MIDI output: --midi-output <NAME|INDEX> or --virtual-midi"@,
            ArgError::Velocity(a) => "velocity must be 0..=127 (got "@ + decimal(a as nat) + ")"@,
            ArgError::Channel(a) => "channel must be 1..=16 (got "@ + decimal(a as nat) + ")"@,
            ArgError::SlotLength(a) => "slot-length must be greater than 0 (got "@ + a@ + ")"@,
            ArgError::NoteLength(a) => "note-length must be greater than 0 (got "@ + a@ + ")"@,
            ArgError::InputRate(a) => "v1 only supports --sample-rate 44100 (got "@ + decimal(a as nat) + "); set your audio device to 44.1 kHz or omit the flag"@,
            ArgError::EngineRate(a) => "v1 only supports --sample-rate 44100 (got "@ + decimal(a as nat) + "); omit the flag"@,
            ArgError::NoteRange => "MIDI notes must be 0..=127"@,
            ArgError::NoteOrder(a, b) => "start-midi ("@ + decimal(a as nat) + ") must be <= end-midi ("@ + decimal(b as nat) + ")"@,
            ArgError::TestNote(a) => "test-note must be 0..=127 (got "@ + decimal(a as nat) + ")"@,
            ArgError::ProbeMs => "probe-ms must be greater than 0"@,
            ArgError::ProbeThreshold(a) => "probe-threshold must be >= 0 (got "@ + a@ + ")"@,
            ArgError::MaxSlotLength(a) => "max-slot-length must be greater than 0 (got "@ + a@ + ")"@,
            ArgError::MeasureNotes => "measure-notes must be at least 1"@,
            ArgError::DecayThreshold(a) => "decay-threshold must be >= 0 (got "@ + a@ + ")"@,
            ArgError::SlotMargin(a) => "slot-margin must be >= 0 (got "@ + a@ + ")"@,
            ArgError::TwoChordModes => "use either --chord (one quality, slice = root) or --chords (packed), not both"@,
            ArgError::FilePerChord => "--file-per-chord only applies with --chords"@,
            ArgError::PerOctave => "--per-octave only applies with --chords"@,
            ArgError::OctaveAndChord => "use either --per-octave or --file-per-chord, not both"@,
            ArgError::NoSlices => "max-slices must be at least 1"@,
            ArgError::TooManySlices(a) => "max-slices must be <= 255 (the M8 fixed-slice maximum); got "@ + decimal(a as nat),
            ArgError::NoSfz => "provide at least one --sfz file"@,
            ArgError::NotSfz(a) => "--sfz expects a .sfz file (got "@ + a@ + ")"@,
            ArgError::NoVelocities => "--velocities needs at least one value"@,
            ArgError::ListedVelocity(a) => "each --velocities value must be 0..=127 (got "@ + decimal(a as nat) + ")"@,
            ArgError::Variations => "variations must be at least 1"@,
            ArgError::Jobs => "--jobs must be at least 1"@,
        }
    }

    /// The message for the user.
    pub fn message(&self) -> (r: String)
        ensures
            r@ == self.text(),
    {
        match self {
            ArgError::TwoMidiOutputs => "use either --midi-output or --virtual-midi, not both".to_string(),
            ArgError::NoMidiOutput => "specify a MIDI output: --midi-output <NAME|INDEX> or --virtual-midi".to_string(),
            ArgError::Velocity(a) => {
                let mut s = "velocity must be 0..=127 (got ".to_string();
                s.append(decimal_text(*a as u64).as_str());
                s.append(")");
                s
            },
            ArgError::Channel(a) => {
                let mut s = "channel must be 1..=16 (got ".to_string();
                s.append(decimal_text(*a as u64).as_str());
                s.append(")");
                s
            },
            ArgError::SlotLength(a) => {
                let mut s = "slot-length must be greater than 0 (got ".to_string();
                s.append(a.as_str());
                s.append(")");
                s
            },
            ArgError::NoteLength(a) => {
                let mut s = "note-length must be greater than 0 (got ".to_string();
                s.append(a.as_str());
                s.append(")");
                s
            },
            ArgError::InputRate(a) => {
                let mut s = "v1 only supports --sample-rate 44100 (got ".to_string();
                s.append(decimal_text(*a as u64).as_str());
                s.append("); set your audio device to 44.1 kHz or omit the flag");
                s
            },
            ArgError::EngineRate(a) => {
                let mut s = "v1 only supports --sample-rate 44100 (got ".to_string();
                s.append(decimal_text(*a as u64).as_str());
                s.append("); omit the flag");
                s
            },
            ArgError::NoteRange => "MIDI notes must be 0..=127".to_string(),
            ArgError::NoteOrder(a, b) => {
                let mut s = "start-midi (".to_string();
                s.append(decimal_text(*a as u64).as_str());
                s.append(") must be <= end-midi (");
                s.append(decimal_text(*b as u64).as_str());
                s.append(")");
                s
            },
            ArgError::TestNote(a) => {
                let mut s = "test-note must be 0..=127 (got ".to_string();
                s.append(decimal_text(*a as u64).as_str());
                s.append(")");
                s
            },
            ArgError::ProbeMs => "probe-ms must be greater than 0".to_string(),
            ArgError::ProbeThreshold(a) => {
                let mut s = "probe-threshold must be >= 0 (got ".to_string();
                s.append(a.as_str());
                s.append(")");
                s
            },
            ArgError::MaxSlotLength(a) => {
                let mut s = "max-slot-length must be greater than 0 (got ".to_string();
                s.append(a.as_str());
                s.append(")");
                s
            },
            ArgError::MeasureNotes => "measure-notes must be at least 1".to_string(),
            ArgError::DecayThreshold(a) => {
                let mut s = "decay-threshold must be >= 0 (got ".to_string();
                s.append(a.as_str());
                s.append(")");
                s
            },
            ArgError::SlotMargin(a) => {
                let mut s = "slot-margin must be >= 0 (got ".to_string();
                s.append(a.as_str());
                s.append(")");
                s
            },
            ArgError::TwoChordModes => "use either --chord (one quality, slice = root) or --chords (packed), not both".to_string(),
            ArgError::FilePerChord => "--file-per-chord only applies with --chords".to_string(),
            ArgError::PerOctave => "--per-octave only applies with --chords".to_string(),
            ArgError::OctaveAndChord => "use either --per-octave or --file-per-chord, not both".to_string(),
            ArgError::NoSlices => "max-slices must be at least 1".to_string(),
            ArgError::TooManySlices(a) => {
                let mut s = "max-slices must be <= 255 (the M8 fixed-slice maximum); got ".to_string();
                s.append(decimal_text(*a as u64).as_str());
                s
            },
            ArgError::NoSfz => "provide at least one --sfz file".to_string(),
            ArgError::NotSfz(a) => {
                let mut s = "--sfz expects a .sfz file (got ".to_string();
                s.append(a.as_str());
                s.append(")");
                s
            },
            ArgError::NoVelocities => "--velocities needs at least one value".to_string(),
            ArgError::ListedVelocity(a) => {
                let mut s = "each --velocities value must be 0..=127 (got ".to_string();
                s.append(decimal_text(*a as u64).as_str());
                s.append(")");
                s
            },
            ArgError::Variations => "variations must be at least 1".to_string(),
            ArgError::Jobs => "--jobs must be at least 1".to_string(),
        }
    }
}

} // verus!
