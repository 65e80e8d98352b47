//! The arguments of the two render commands, and which of them are valid.
use crate::arg_error::ArgError;
use crate::chords::ChordQuality;
use crate::level::Level;
use crate::number::Number;
use crate::paths::{extension, path_extension};
use crate::text::{equal_but_for_case, same_but_for_case};
use vstd::prelude::*;

verus! {

/// Output channel layout.
#[derive(Copy, Clone, Debug, PartialEq, Eq, Structural)]
pub enum Channels {
    /// Follow the source: mono input -> mono, stereo input -> stereo.
    Auto,
    /// One channel.
    Mono,
    /// Two channels.
    Stereo,
}

impl Channels {
    /// The output channel count for a source of so many channels.
    pub open spec fn count(self, native_channels: u16) -> u16 {
        match self {
            Channels::Mono => 1,
            Channels::Stereo => 2,
            Channels::Auto => if native_channels >= 2 {
                2
            } else {
                1
            },
        }
    }

    /// Resolve the output channel count, using the source's native channel count
    /// for `Auto`.
    pub fn resolve(self, native_channels: u16) -> (r: u16)
        ensures
            r == self.count(native_channels),
    {
        match self {
            Channels::Mono => 1,
            Channels::Stereo => 2,
            Channels::Auto => {
                if native_channels >= 2 {
                    2
                } else {
                    1
                }
            },
        }
    }
}

/// Arguments for the live `render` command.
#[derive(Debug)]
pub struct RenderArgs {
    /// MIDI output device (index, exact name, or unique substring).
    pub midi_output: Option<String>,
    /// Create a virtual MIDI output port instead of connecting to a device.
    pub virtual_midi: bool,
    /// Audio input device (index, exact name, or unique substring).
    pub audio_input: String,
    /// Output WAV path.
    pub output: String,
    /// Note-on velocity (0..=127).
    pub velocity: u8,
    /// MIDI channel (1..=16).
    pub channel: u8,
    /// How long the note is held, in seconds.
    pub note_length: Number,
    /// Total recorded length per slot, in seconds.
    pub slot_length: Number,
    /// Silence before each Note On, in milliseconds.
    pub pre_roll_ms: u64,
    /// Output sample rate.
    pub sample_rate: u32,
    /// Output channel layout.
    pub channels: Channels,
    /// First MIDI note to render (0..=127).
    pub start_midi: u8,
    /// Last MIDI note to render (0..=127).
    pub end_midi: u8,
    /// Print the render plan without opening any devices.
    pub dry_run: bool,
    /// Render and record only this single MIDI note.
    pub test_note: Option<u8>,
    /// Record every note at full slot length, without a probe pass.
    pub no_probe: bool,
    /// Probe note hold, in milliseconds.
    pub probe_ms: u64,
    /// Peak level above which a probed note counts as sounding.
    pub probe_threshold: Level,
    /// Measure the longest ring-out and use it as the slot length.
    pub auto_slot_length: bool,
    /// Upper bound for the measured slot length, in seconds.
    pub max_slot_length: Number,
    /// How many notes to measure.
    pub measure_notes: u8,
    /// Level below which a ring-out tail counts as silent.
    pub decay_threshold: Level,
    /// Seconds added after the measured tail.
    pub slot_margin: Number,
    /// Fade-out at the end of each slot, in milliseconds.
    pub fade_ms: u64,
    /// Also write a copy without leading and trailing silent slots.
    pub unpadded: bool,
    /// Also write the CSV map.
    pub csv: bool,
    /// Also write the JSON config.
    pub json: bool,
    /// Also render the plain single-note chain.
    pub notes: bool,
    /// Record a chord of this quality rooted at each note.
    pub chord: Option<ChordQuality>,
    /// Render packed chord files for these qualities; empty means all.
    pub chords: Option<Vec<ChordQuality>>,
    /// With `chords`, one file per quality.
    pub file_per_chord: bool,
    /// With `chords`, one file per octave.
    pub per_octave: bool,
    /// Slice budget per chord file.
    pub max_slices: usize,
    /// Keep the raw captured level.
    pub no_normalize: bool,
    /// Peak-normalization target in dBFS.
    pub normalize_dbfs: Number,
    /// Keep the raw latency and attack gap.
    pub no_trim_onset: bool,
    /// Level in dBFS at which a slot's sound starts.
    pub onset_dbfs: Number,
    /// Milliseconds kept before the detected onset.
    pub onset_lookback_ms: u64,
    /// Fade-in at the start of each slot, in milliseconds.
    pub fade_in_ms: u64,
}

/// The sample rate that every output has.
pub const M8_SAMPLE_RATE: u32 = 44100;

/// The qualities that a chord list asks for: those named, all of them for an
/// empty list, none without a list.
pub open spec fn requested_chords(chords: Option<Vec<ChordQuality>>) -> Seq<ChordQuality> {
    match chords {
        Some(v) => if v@.len() > 0 {
            v@
        } else {
            ChordQuality::ALL@
        },
        None => Seq::empty(),
    }
}

/// Copies the qualities that a chord list asks for.
fn resolve_chords(chords: &Option<Vec<ChordQuality>>) -> (r: Vec<ChordQuality>)
    ensures
        r@ == requested_chords(*chords),
{
    let mut out: Vec<ChordQuality> = Vec::new();
    match chords {
        Some(v) => {
            let mut i: usize = 0;
            if v.len() > 0 {
                while i < v.len()
                    invariant
                        i <= v.len(),
                        out@ =~= v@.take(i as int),
                    decreases v.len() - i,
                {
                    out.push(v[i]);
                    i += 1;
                }
                assert(out@ =~= v@);
            } else {
                let all = ChordQuality::ALL;
                while i < 10
                    invariant
                        i <= 10,
                        all == ChordQuality::ALL,
                        out@ =~= all@.take(i as int),
                    decreases 10 - i,
                {
                    out.push(all[i]);
                    i += 1;
                }
                assert(out@ =~= all@);
            }
        },
        None => {},
    }
    out
}

impl RenderArgs {
    /// Whether the arguments describe a run.
    pub open spec fn valid(&self) -> bool {
        &&& self.midi_output is Some != self.virtual_midi
        &&& self.velocity <= 127
        &&& 1 <= self.channel <= 16
        &&& self.slot_length.value.is_positive()
        &&& self.note_length.value.is_positive()
        &&& self.sample_rate == M8_SAMPLE_RATE
        &&& self.start_midi <= self.end_midi <= 127
        &&& self.test_note matches Some(n) ==> n <= 127
        &&& self.probe_ms > 0
        &&& self.probe_threshold.value.is_non_negative()
        &&& self.auto_slot_length ==> {
            &&& self.max_slot_length.value.is_positive()
            &&& self.measure_notes > 0
            &&& self.decay_threshold.value.is_non_negative()
            &&& self.slot_margin.value.is_non_negative()
        }
        &&& !(self.chord is Some && self.chords is Some)
        &&& self.file_per_chord || self.per_octave ==> self.chords is Some
        &&& !(self.per_octave && self.file_per_chord)
        &&& self.chords is Some ==> 1 <= self.max_slices <= 255
    }

    /// The first thing that is wrong with the arguments, in the order in which
    /// they are looked at.
    pub open spec fn fault(&self) -> Option<ArgError> {
        if self.midi_output is Some && self.virtual_midi {
            Some(ArgError::TwoMidiOutputs)
        } else if self.midi_output is None && !self.virtual_midi {
            Some(ArgError::NoMidiOutput)
        } else if self.velocity > 127 {
            Some(ArgError::Velocity(self.velocity))
        } else if !(1 <= self.channel <= 16) {
            Some(ArgError::Channel(self.channel))
        } else if !self.slot_length.value.is_positive() {
            Some(ArgError::SlotLength(self.slot_length.text))
        } else if !self.note_length.value.is_positive() {
            Some(ArgError::NoteLength(self.note_length.text))
        } else if self.sample_rate != M8_SAMPLE_RATE {
            Some(ArgError::InputRate(self.sample_rate))
        } else if self.start_midi > 127 || self.end_midi > 127 {
            Some(ArgError::NoteRange)
        } else if self.start_midi > self.end_midi {
            Some(ArgError::NoteOrder(self.start_midi, self.end_midi))
        } else if self.test_note is Some && self.test_note->0 > 127 {
            Some(ArgError::TestNote(self.test_note->0))
        } else if self.probe_ms == 0 {
            Some(ArgError::ProbeMs)
        } else if !self.probe_threshold.value.is_non_negative() {
            Some(ArgError::ProbeThreshold(self.probe_threshold.text))
        } else if self.auto_slot_length && measure_fault(
            self.max_slot_length,
            self.measure_notes,
            self.decay_threshold,
            self.slot_margin,
        ) is Some {
            measure_fault(
                self.max_slot_length,
                self.measure_notes,
                self.decay_threshold,
                self.slot_margin,
            )
        } else if self.chord is Some && self.chords is Some {
            Some(ArgError::TwoChordModes)
        } else if self.file_per_chord && self.chords is None {
            Some(ArgError::FilePerChord)
        } else if self.per_octave && self.chords is None {
            Some(ArgError::PerOctave)
        } else if self.per_octave && self.file_per_chord {
            Some(ArgError::OctaveAndChord)
        } else if self.chords is Some {
            slices_fault(self.max_slices)
        } else {
            None
        }
    }

    /// Validate user-supplied values, returning the first error.
    pub fn validate(&self) -> (r: Result<(), ArgError>)
        ensures
            r is Ok <==> self.valid(),
            r is Ok <==> self.fault() is None,
            r matches Err(e) ==> Some(e) == self.fault(),
    {
        if self.midi_output.is_some() && self.virtual_midi {
            return Err(ArgError::TwoMidiOutputs);
        }
        if self.midi_output.is_none() && !self.virtual_midi {
            return Err(ArgError::NoMidiOutput);
        }
        if self.velocity > 127 {
            return Err(ArgError::Velocity(self.velocity));
        }
        if self.channel < 1 || self.channel > 16 {
            return Err(ArgError::Channel(self.channel));
        }
        if !self.slot_length.value.positive() {
            return Err(ArgError::SlotLength(self.slot_length.text.clone()));
        }
        if !self.note_length.value.positive() {
            return Err(ArgError::NoteLength(self.note_length.text.clone()));
        }
        if self.sample_rate != M8_SAMPLE_RATE {
            return Err(ArgError::InputRate(self.sample_rate));
        }
        if self.start_midi > 127 || self.end_midi > 127 {
            return Err(ArgError::NoteRange);
        }
        if self.start_midi > self.end_midi {
            return Err(ArgError::NoteOrder(self.start_midi, self.end_midi));
        }
        if let Some(n) = self.test_note {
            if n > 127 {
                return Err(ArgError::TestNote(n));
            }
        }
        if self.probe_ms == 0 {
            return Err(ArgError::ProbeMs);
        }
        if !self.probe_threshold.value.non_negative() {
            return Err(ArgError::ProbeThreshold(self.probe_threshold.text.clone()));
        }
        if self.auto_slot_length {
            let measured = validate_measurement(
                &self.max_slot_length,
                self.measure_notes,
                &self.decay_threshold,
                &self.slot_margin,
            );
            if measured.is_err() {
                return measured;
            }
        }
        if self.chord.is_some() && self.chords.is_some() {
            return Err(ArgError::TwoChordModes);
        }
        if self.file_per_chord && self.chords.is_none() {
            return Err(ArgError::FilePerChord);
        }
        if self.per_octave && self.chords.is_none() {
            return Err(ArgError::PerOctave);
        }
        if self.per_octave && self.file_per_chord {
            return Err(ArgError::OctaveAndChord);
        }
        if self.chords.is_some() {
            return validate_slices(self.max_slices);
        }
        Ok(())
    }

    /// The chord qualities to render for `chords`: the given list, all qualities
    /// for an empty one, or none when the list was not given at all.
    pub fn resolved_chords(&self) -> (r: Vec<ChordQuality>)
        ensures
            r@ == requested_chords(self.chords),
    {
        resolve_chords(&self.chords)
    }
}

/// What is wrong with the arguments of a ring-out measurement.
pub open spec fn measure_fault(
    max_slot_length: Number,
    measure_notes: u8,
    decay_threshold: Level,
    slot_margin: Number,
) -> Option<ArgError> {
    if !max_slot_length.value.is_positive() {
        Some(ArgError::MaxSlotLength(max_slot_length.text))
    } else if measure_notes == 0 {
        Some(ArgError::MeasureNotes)
    } else if !decay_threshold.value.is_non_negative() {
        Some(ArgError::DecayThreshold(decay_threshold.text))
    } else if !slot_margin.value.is_non_negative() {
        Some(ArgError::SlotMargin(slot_margin.text))
    } else {
        None
    }
}

/// Checks the arguments of a ring-out measurement.
fn validate_measurement(
    max_slot_length: &Number,
    measure_notes: u8,
    decay_threshold: &Level,
    slot_margin: &Number,
) -> (r: Result<(), ArgError>)
    ensures
        match measure_fault(*max_slot_length, measure_notes, *decay_threshold, *slot_margin) {
            None => r is Ok,
            Some(e) => r == Err::<(), ArgError>(e),
        },
{
    if !max_slot_length.value.positive() {
        return Err(ArgError::MaxSlotLength(max_slot_length.text.clone()));
    }
    if measure_notes == 0 {
        return Err(ArgError::MeasureNotes);
    }
    if !decay_threshold.value.non_negative() {
        return Err(ArgError::DecayThreshold(decay_threshold.text.clone()));
    }
    if !slot_margin.value.non_negative() {
        return Err(ArgError::SlotMargin(slot_margin.text.clone()));
    }
    Ok(())
}

/// What is wrong with a slice budget.
pub open spec fn slices_fault(max_slices: usize) -> Option<ArgError> {
    if max_slices < 1 {
        Some(ArgError::NoSlices)
    } else if max_slices > 255 {
        Some(ArgError::TooManySlices(max_slices))
    } else {
        None
    }
}

/// Checks a slice budget.
fn validate_slices(max_slices: usize) -> (r: Result<(), ArgError>)
    ensures
        match slices_fault(max_slices) {
            None => r is Ok,
            Some(e) => r == Err::<(), ArgError>(e),
        },
{
    if max_slices < 1 {
        return Err(ArgError::NoSlices);
    }
    if max_slices > 255 {
        return Err(ArgError::TooManySlices(max_slices));
    }
    Ok(())
}

/// Arguments for the offline `render-sfz` command.
#[derive(Debug)]
pub struct RenderSfzArgs {
    /// One or more `.sfz` instrument files.
    pub sfz: Vec<String>,
    /// Path to the `sfizz_render` binary.
    pub sfizz_render: Option<String>,
    /// Output WAV path.
    pub output: Option<String>,
    /// Note-on velocity (0..=127). Ignored when `velocities` is given.
    pub velocity: u8,
    /// Render one chain per velocity (each 0..=127).
    pub velocities: Option<Vec<u8>>,
    /// How long each note is held, in seconds.
    pub note_length: Number,
    /// Total length per slot, in seconds.
    pub slot_length: Number,
    /// Output sample rate.
    pub sample_rate: u32,
    /// Output channel layout.
    pub channels: Channels,
    /// First MIDI note to render (0..=127).
    pub start_midi: u8,
    /// Last MIDI note to render (0..=127).
    pub end_midi: u8,
    /// Render a chord of this quality rooted at each note.
    pub chord: Option<ChordQuality>,
    /// Render packed chord files for these qualities; empty means all.
    pub chords: Option<Vec<ChordQuality>>,
    /// With `chords`, one file per quality.
    pub file_per_chord: bool,
    /// With `chords`, one file per octave.
    pub per_octave: bool,
    /// Slice budget per chord file.
    pub max_slices: usize,
    /// Also render the plain single-note chain.
    pub notes: bool,
    /// Measure each font's ring-out and use it as the slot length.
    pub auto_slot_length: bool,
    /// Upper bound for the measured slot length, in seconds.
    pub max_slot_length: Number,
    /// How many notes to measure.
    pub measure_notes: u8,
    /// Level below which a ring-out tail counts as silent.
    pub decay_threshold: Level,
    /// Seconds added after the measured tail.
    pub slot_margin: Number,
    /// Pack chords over the full range, without a probe.
    pub no_probe: bool,
    /// Probe length per note, in milliseconds.
    pub probe_ms: u64,
    /// Peak level above which a probed note counts as sounding.
    pub probe_threshold: Level,
    /// Number of variation takes per chain.
    pub variations: u32,
    /// Peak velocity jitter for variation takes.
    pub velocity_jitter: Option<u8>,
    /// Fade-out at the end of each slot, in milliseconds.
    pub fade_ms: u64,
    /// Fade-in at the start of each slot, in milliseconds.
    pub fade_in_ms: u64,
    /// Keep the rendered level.
    pub no_normalize: bool,
    /// Peak-normalization target in dBFS.
    pub normalize_dbfs: Number,
    /// Also write a copy without leading and trailing silent slots.
    pub unpadded: bool,
    /// Also write the CSV map.
    pub csv: bool,
    /// Also write the JSON config.
    pub json: bool,
    /// Cap on the number of parallel render jobs.
    pub jobs: Option<usize>,
    /// Print the render plan without running the engine.
    pub dry_run: bool,
}

/// Whether a path names an `.sfz` file, in any case of its letters.
pub open spec fn is_sfz(path: Seq<char>) -> bool {
    path_extension(path) matches Some(e) && same_but_for_case(e, "sfz"@)
}

/// Whether an extension, where there is one, is that of an `.sfz` file.
pub fn is_sfz_extension(found: &Option<String>) -> (r: bool)
    ensures
        r == (found matches Some(e) && same_but_for_case(e@, "sfz"@)),
{
    match found {
        Some(e) => equal_but_for_case(e.as_str(), "sfz"),
        None => false,
    }
}

/// The first path from position `i` on that names no `.sfz` file.
pub open spec fn first_not_sfz(paths: Seq<String>, i: nat) -> Option<String>
    decreases paths.len() - i,
{
    if i >= paths.len() {
        None
    } else if !is_sfz(paths[i as int]@) {
        Some(paths[i as int])
    } else {
        first_not_sfz(paths, i + 1)
    }
}

/// The first velocity from position `i` on that is above 127.
pub open spec fn first_too_loud(velocities: Seq<u8>, i: nat) -> Option<u8>
    decreases velocities.len() - i,
{
    if i >= velocities.len() {
        None
    } else if velocities[i as int] > 127 {
        Some(velocities[i as int])
    } else {
        first_too_loud(velocities, i + 1)
    }
}

/// Nothing is found where every path names an `.sfz` file, and only there.
proof fn lemma_first_not_sfz(paths: Seq<String>, i: nat)
    ensures
        first_not_sfz(paths, i) is None <==> forall|j: int|
            i <= j < paths.len() ==> is_sfz(#[trigger] paths[j]@),
    decreases paths.len() - i,
{
    if i < paths.len() {
        lemma_first_not_sfz(paths, i + 1);
        if is_sfz(paths[i as int]@) && first_not_sfz(paths, i + 1) is None {
            assert forall|j: int| i <= j < paths.len() implies is_sfz(#[trigger] paths[j]@) by {}
        }
    }
}

/// Nothing is found where every velocity is at most 127, and only there.
proof fn lemma_first_too_loud(velocities: Seq<u8>, i: nat)
    ensures
        first_too_loud(velocities, i) is None <==> forall|j: int|
            i <= j < velocities.len() ==> velocities[j] <= 127,
    decreases velocities.len() - i,
{
    if i < velocities.len() {
        lemma_first_too_loud(velocities, i + 1);
        if velocities[i as int] <= 127 && first_too_loud(velocities, i + 1) is None {
            assert forall|j: int| i <= j < velocities.len() implies velocities[j] <= 127 by {}
        }
    }
}

impl RenderSfzArgs {
    /// Whether the arguments describe a run.
    pub open spec fn valid(&self) -> bool {
        &&& self.sfz@.len() > 0
        &&& forall|j: int| 0 <= j < self.sfz@.len() ==> is_sfz(#[trigger] self.sfz@[j]@)
        &&& self.velocity <= 127
        &&& self.velocities matches Some(vs) ==> {
            &&& vs@.len() > 0
            &&& forall|j: int| 0 <= j < vs@.len() ==> vs@[j] <= 127
        }
        &&& self.slot_length.value.is_positive()
        &&& self.note_length.value.is_positive()
        &&& self.sample_rate == M8_SAMPLE_RATE
        &&& self.start_midi <= self.end_midi <= 127
        &&& self.variations >= 1
        &&& self.jobs != Some(0usize)
        &&& self.auto_slot_length ==> {
            &&& self.max_slot_length.value.is_positive()
            &&& self.measure_notes > 0
            &&& self.decay_threshold.value.is_non_negative()
            &&& self.slot_margin.value.is_non_negative()
        }
        &&& !(self.chord is Some && self.chords is Some)
        &&& self.file_per_chord ==> self.chords is Some
        &&& !(self.per_octave && self.file_per_chord)
        &&& self.chords is Some ==> 1 <= self.max_slices <= 255
    }

    /// What is wrong with the list of velocities.
    pub open spec fn velocities_fault(&self) -> Option<ArgError> {
        match self.velocities {
            Some(vs) => if vs@.len() == 0 {
                Some(ArgError::NoVelocities)
            } else {
                match first_too_loud(vs@, 0) {
                    Some(v) => Some(ArgError::ListedVelocity(v)),
                    None => None,
                }
            },
            None => None,
        }
    }

    /// The first thing that is wrong with the arguments, in the order in which
    /// they are looked at.
    pub open spec fn fault(&self) -> Option<ArgError> {
        if self.sfz@.len() == 0 {
            Some(ArgError::NoSfz)
        } else if first_not_sfz(self.sfz@, 0) is Some {
            Some(ArgError::NotSfz(first_not_sfz(self.sfz@, 0)->0))
        } else if self.velocity > 127 {
            Some(ArgError::Velocity(self.velocity))
        } else if self.velocities_fault() is Some {
            self.velocities_fault()
        } else if !self.slot_length.value.is_positive() {
            Some(ArgError::SlotLength(self.slot_length.text))
        } else if !self.note_length.value.is_positive() {
            Some(ArgError::NoteLength(self.note_length.text))
        } else if self.sample_rate != M8_SAMPLE_RATE {
            Some(ArgError::EngineRate(self.sample_rate))
        } else if self.start_midi > 127 || self.end_midi > 127 {
            Some(ArgError::NoteRange)
        } else if self.start_midi > self.end_midi {
            Some(ArgError::NoteOrder(self.start_midi, self.end_midi))
        } else if self.variations < 1 {
            Some(ArgError::Variations)
        } else if self.jobs == Some(0usize) {
            Some(ArgError::Jobs)
        } else if self.auto_slot_length && measure_fault(
            self.max_slot_length,
            self.measure_notes,
            self.decay_threshold,
            self.slot_margin,
        ) is Some {
            measure_fault(
                self.max_slot_length,
                self.measure_notes,
                self.decay_threshold,
                self.slot_margin,
            )
        } else if self.chord is Some && self.chords is Some {
            Some(ArgError::TwoChordModes)
        } else if self.file_per_chord && self.chords is None {
            Some(ArgError::FilePerChord)
        } else if self.per_octave && self.file_per_chord {
            Some(ArgError::OctaveAndChord)
        } else if self.chords is Some {
            slices_fault(self.max_slices)
        } else {
            None
        }
    }

    /// Checks that every instrument file is an `.sfz` file.
    fn validate_files(&self) -> (r: Result<(), ArgError>)
        ensures
            match first_not_sfz(self.sfz@, 0) {
                None => r is Ok,
                Some(p) => r == Err::<(), ArgError>(ArgError::NotSfz(p)),
            },
    {
        let mut i: usize = 0;
        while i < self.sfz.len()
            invariant
                i <= self.sfz.len(),
                first_not_sfz(self.sfz@, 0) == first_not_sfz(self.sfz@, i as nat),
            decreases self.sfz.len() - i,
        {
            let found = extension(self.sfz[i].as_str());
            if !is_sfz_extension(&found) {
                return Err(ArgError::NotSfz(self.sfz[i].clone()));
            }
            i += 1;
        }
        Ok(())
    }

    /// Checks the list of velocities.
    fn validate_velocities(&self) -> (r: Result<(), ArgError>)
        ensures
            match self.velocities_fault() {
                None => r is Ok,
                Some(e) => r == Err::<(), ArgError>(e),
            },
    {
        if let Some(vs) = &self.velocities {
            if vs.len() == 0 {
                return Err(ArgError::NoVelocities);
            }
            let mut i: usize = 0;
            while i < vs.len()
                invariant
                    i <= vs.len(),
                    first_too_loud(vs@, 0) == first_too_loud(vs@, i as nat),
                    vs.len() > 0,
                    self.velocities == Some(*vs),
                decreases vs.len() - i,
            {
                if vs[i] > 127 {
                    return Err(ArgError::ListedVelocity(vs[i]));
                }
                i += 1;
            }
        }
        Ok(())
    }

    /// Validate user-supplied values, returning the first error.
    pub fn validate(&self) -> (r: Result<(), ArgError>)
        ensures
            r is Ok <==> self.valid(),
            r is Ok <==> self.fault() is None,
            r matches Err(e) ==> Some(e) == self.fault(),
    {
        proof {
            lemma_first_not_sfz(self.sfz@, 0);
            if self.velocities is Some {
                lemma_first_too_loud(self.velocities->0@, 0);
            }
        }
        if self.sfz.len() == 0 {
            return Err(ArgError::NoSfz);
        }
        let files = self.validate_files();
        if files.is_err() {
            return files;
        }
        if self.velocity > 127 {
            return Err(ArgError::Velocity(self.velocity));
        }
        let listed = self.validate_velocities();
        if listed.is_err() {
            return listed;
        }
        if !self.slot_length.value.positive() {
            return Err(ArgError::SlotLength(self.slot_length.text.clone()));
        }
        if !self.note_length.value.positive() {
            return Err(ArgError::NoteLength(self.note_length.text.clone()));
        }
        if self.sample_rate != M8_SAMPLE_RATE {
            return Err(ArgError::EngineRate(self.sample_rate));
        }
        if self.start_midi > 127 || self.end_midi > 127 {
            return Err(ArgError::NoteRange);
        }
        if self.start_midi > self.end_midi {
            return Err(ArgError::NoteOrder(self.start_midi, self.end_midi));
        }
        if self.variations < 1 {
            return Err(ArgError::Variations);
        }
        if let Some(j) = self.jobs {
            if j == 0 {
                return Err(ArgError::Jobs);
            }
        }
        if self.auto_slot_length {
            let measured = validate_measurement(
                &self.max_slot_length,
                self.measure_notes,
                &self.decay_threshold,
                &self.slot_margin,
            );
            if measured.is_err() {
                return measured;
            }
        }
        if self.chord.is_some() && self.chords.is_some() {
            return Err(ArgError::TwoChordModes);
        }
        if self.file_per_chord && self.chords.is_none() {
            return Err(ArgError::FilePerChord);
        }
        if self.per_octave && self.file_per_chord {
            return Err(ArgError::OctaveAndChord);
        }
        if self.chords.is_some() {
            return validate_slices(self.max_slices);
        }
        Ok(())
    }

    /// The chord qualities to render for `chords`: the given list, all qualities
    /// for an empty one, or none when the list was not given at all.
    pub fn resolved_chords(&self) -> (r: Vec<ChordQuality>)
        ensures
            r@ == requested_chords(self.chords),
    {
        resolve_chords(&self.chords)
    }

    /// The velocities that get a chain each.
    pub open spec fn chain_velocities(&self) -> Seq<u8> {
        match self.velocities {
            Some(vs) => if vs@.len() > 0 {
                vs@
            } else {
                seq![self.velocity]
            },
            None => seq![self.velocity],
        }
    }

    /// The velocities to render one chain each for: `velocities` if given,
    /// otherwise the single `velocity`.
    pub fn resolved_velocities(&self) -> (r: Vec<u8>)
        ensures
            r@ == self.chain_velocities(),
    {
        let mut out: Vec<u8> = Vec::new();
        if let Some(vs) = &self.velocities {
            let mut i: usize = 0;
            while i < vs.len()
                invariant
                    i <= vs.len(),
                    out@ =~= vs@.take(i as int),
                decreases vs.len() - i,
            {
                out.push(vs[i]);
                i += 1;
            }
            assert(out@ =~= vs@);
        }
        if out.len() == 0 {
            out.push(self.velocity);
            assert(out@ =~= seq![self.velocity]);
        }
        out
    }

    /// The velocity jitter in effect.
    pub open spec fn jitter(&self) -> u8 {
        match self.velocity_jitter {
            Some(j) => j,
            None => if self.variations > 1 {
                8
            } else {
                0
            },
        }
    }

    /// Effective per-note velocity jitter for variation takes: the explicit
    /// `velocity_jitter`, else 8 when more than one variation is requested.
    pub fn effective_jitter(&self) -> (r: u8)
        ensures
            r == self.jitter(),
    {
        match self.velocity_jitter {
            Some(j) => j,
            None => {
                if self.variations > 1 {
                    8
                } else {
                    0
                }
            },
        }
    }
}

} // verus!
