//! The render config that is written next to each WAV on request.
use crate::cli::{RenderArgs, M8_SAMPLE_RATE};
use crate::number::Binary64;
use crate::output::or_else;
use crate::paths::{file_name, optional_text, path_file_name};
use crate::text::{hexadecimal, hexadecimal_text, pad_left, padded_left};
use vstd::prelude::*;

verus! {

/// Everything that describes a render.
#[derive(Debug)]
pub struct RenderConfig {
    /// Which command rendered.
    pub mode: String,
    /// File name of the WAV.
    pub output_wav: String,
    /// File name of the CSV map.
    pub output_map: String,
    /// The format of the WAV.
    pub format: FormatConfig,
    /// What was played.
    pub midi: MidiConfig,
    /// What was recorded.
    pub audio: AudioConfig,
    /// How long and how often.
    pub render: RenderParams,
    /// How to load the WAV.
    pub m8: M8Config,
}

/// The format of a WAV.
#[derive(Copy, Clone, Debug, PartialEq, Eq, Structural)]
pub struct FormatConfig {
    /// Frames per second.
    pub sample_rate: u32,
    /// Bits per sample.
    pub bit_depth: u16,
    /// Samples per frame.
    pub channels: u16,
}

/// What was played.
#[derive(Debug)]
pub struct MidiConfig {
    /// The MIDI output, or the engine.
    pub output: String,
    /// MIDI channel.
    pub channel: u8,
    /// First note.
    pub start_midi: u8,
    /// Last note.
    pub end_midi: u8,
    /// Note-on velocity.
    pub velocity: u8,
}

/// What was recorded.
#[derive(Debug)]
pub struct AudioConfig {
    /// The audio input, or the instrument file.
    pub input: String,
}

/// How long and how often.
#[derive(Debug)]
pub struct RenderParams {
    /// How long a note is held.
    pub note_length_seconds: Binary64,
    /// How long a slot is.
    pub slot_length_seconds: Binary64,
    /// Silence before each note.
    pub pre_roll_ms: u64,
    /// Slots in the WAV.
    pub slice_count: u32,
    /// Slots in the WAV, as the M8 takes the number.
    pub m8_slice_hex: String,
    /// The chord tag of the file, where it holds chords.
    pub chord: Option<String>,
}

/// How to load a WAV into the M8.
#[derive(Debug)]
pub struct M8Config {
    /// The instrument.
    pub load_into: String,
    /// The SLICE setting.
    pub slice: String,
    /// The PLAY setting.
    pub play: String,
    /// The START setting.
    pub start: String,
    /// The LEN setting.
    pub len: String,
}

impl M8Config {
    /// Whether these are the usual settings for a WAV of so many slices.
    pub open spec fn is_standard(&self, slice: Seq<char>) -> bool {
        &&& self.load_into@ == "Sampler"@
        &&& self.slice@ == slice
        &&& self.play@ == "FWD"@
        &&& self.start@ == "00"@
        &&& self.len@ == "FF"@
    }

    /// The fixed M8 settings the user applies after loading the WAV.
    pub fn standard() -> (r: Self)
        ensures
            r.is_standard("80"@),
    {
        M8Config {
            load_into: "Sampler".to_string(),
            slice: "80".to_string(),
            play: "FWD".to_string(),
            start: "00".to_string(),
            len: "FF".to_string(),
        }
    }
}

/// The M8 SLICE setting: the slice count in hex (128 -> "80", 120 -> "78").
pub open spec fn slice_text(count: nat) -> Seq<char> {
    padded_left(hexadecimal(count), 2, '0')
}

/// The M8 SLICE setting for a WAV of so many slices.
pub fn slice_hex(count: usize) -> (r: String)
    ensures
        r@ == slice_text(count as nat),
{
    let digits = hexadecimal_text(count as u64);
    pad_left(digits.as_str(), 2, '0')
}

/// A found file name, or nothing.
pub fn name_or_empty(found: Option<String>) -> (r: String)
    ensures
        r@ == or_else(optional_text(found), ""@),
{
    match found {
        Some(s) => s,
        None => "".to_string(),
    }
}

/// The file name of a path, or nothing.
pub open spec fn name_text(path: Seq<char>) -> Seq<char> {
    or_else(path_file_name(path), ""@)
}

/// The file name of `path`, or nothing.
pub fn name_of(path: &str) -> (r: String)
    ensures
        r@ == name_text(path@),
{
    name_or_empty(file_name(path))
}

/// Copies an optional text.
pub fn copy_text(t: &Option<String>) -> (r: Option<String>)
    ensures
        r == *t,
{
    match t {
        Some(s) => Some(s.clone()),
        None => None,
    }
}

/// The config of a WAV from a live render.
pub fn build_config(
    args: &RenderArgs,
    midi_name: &str,
    audio_name: &str,
    out_channels: u16,
    slot_length: Binary64,
    slice_count: u32,
    chord_tag: &Option<String>,
    wav_path: &str,
    csv_path: &str,
) -> (r: RenderConfig)
    ensures
        r.mode@ == "midi-render"@,
        r.output_wav@ == name_text(wav_path@),
        r.output_map@ == name_text(csv_path@),
        r.format == (FormatConfig {
            sample_rate: M8_SAMPLE_RATE,
            bit_depth: 16,
            channels: out_channels,
        }),
        r.midi.output@ == midi_name@,
        r.midi.channel == args.channel,
        r.midi.start_midi == args.start_midi,
        r.midi.end_midi == args.end_midi,
        r.midi.velocity == args.velocity,
        r.audio.input@ == audio_name@,
        r.render.note_length_seconds == args.note_length.value,
        r.render.slot_length_seconds == slot_length,
        r.render.pre_roll_ms == args.pre_roll_ms,
        r.render.slice_count == slice_count,
        r.render.m8_slice_hex@ == slice_text(slice_count as nat),
        r.render.chord == *chord_tag,
        r.m8.is_standard(slice_text(slice_count as nat)),
{
    let mut m8 = M8Config::standard();
    m8.slice = slice_hex(slice_count as usize);
    RenderConfig {
        mode: "midi-render".to_string(),
        output_wav: name_of(wav_path),
        output_map: name_of(csv_path),
        format: FormatConfig { sample_rate: M8_SAMPLE_RATE, bit_depth: 16, channels: out_channels },
        midi: MidiConfig {
            output: midi_name.to_string(),
            channel: args.channel,
            start_midi: args.start_midi,
            end_midi: args.end_midi,
            velocity: args.velocity,
        },
        audio: AudioConfig { input: audio_name.to_string() },
        render: RenderParams {
            note_length_seconds: args.note_length.value,
            slot_length_seconds: slot_length,
            pre_roll_ms: args.pre_roll_ms,
            slice_count,
            m8_slice_hex: slice_hex(slice_count as usize),
            chord: copy_text(chord_tag),
        },
        m8,
    }
}

} // verus!
