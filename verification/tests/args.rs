//! Which arguments are accepted, and what is said of those that are not.
use midi_sampler_to_m8::arg_error::ArgError;
use midi_sampler_to_m8::chords::ChordQuality;
use midi_sampler_to_m8::cli::{Channels, RenderArgs, RenderSfzArgs};
use midi_sampler_to_m8::level::{Binary32, Level};
use midi_sampler_to_m8::number::{Binary64, Number};

fn number(x: f64) -> Number {
    Number { value: Binary64 { bits: x.to_bits() }, text: format!("{x}") }
}

fn level(x: f32) -> Level {
    Level { value: Binary32 { bits: x.to_bits() }, text: format!("{x}") }
}

fn base() -> RenderArgs {
    RenderArgs {
        midi_output: Some("0".into()),
        virtual_midi: false,
        audio_input: "0".into(),
        output: "out.wav".into(),
        velocity: 100,
        channel: 1,
        note_length: number(8.0),
        slot_length: number(9.0),
        pre_roll_ms: 100,
        sample_rate: 44_100,
        channels: Channels::Mono,
        start_midi: 0,
        end_midi: 127,
        dry_run: false,
        test_note: None,
        no_probe: false,
        probe_ms: 300,
        probe_threshold: level(0.003),
        auto_slot_length: false,
        max_slot_length: number(20.0),
        measure_notes: 8,
        decay_threshold: level(0.000125),
        slot_margin: number(0.7),
        fade_ms: 10,
        unpadded: false,
        csv: false,
        json: false,
        notes: false,
        chord: None,
        chords: None,
        file_per_chord: false,
        per_octave: false,
        max_slices: 128,
        no_normalize: false,
        normalize_dbfs: number(-1.0),
        no_trim_onset: false,
        onset_dbfs: number(-55.0),
        onset_lookback_ms: 5,
        fade_in_ms: 3,
    }
}

fn sfz_base() -> RenderSfzArgs {
    RenderSfzArgs {
        sfz: vec!["Piano.sfz".to_string()],
        sfizz_render: None,
        output: None,
        velocity: 100,
        velocities: None,
        note_length: number(4.0),
        slot_length: number(5.0),
        sample_rate: 44_100,
        channels: Channels::Auto,
        start_midi: 0,
        end_midi: 127,
        chord: None,
        chords: None,
        file_per_chord: false,
        per_octave: false,
        max_slices: 128,
        notes: false,
        auto_slot_length: false,
        max_slot_length: number(20.0),
        measure_notes: 8,
        decay_threshold: level(0.000125),
        slot_margin: number(0.7),
        no_probe: false,
        probe_ms: 250,
        probe_threshold: level(0.003),
        variations: 1,
        velocity_jitter: None,
        fade_ms: 10,
        fade_in_ms: 3,
        no_normalize: false,
        normalize_dbfs: number(-1.0),
        unpadded: false,
        csv: false,
        json: false,
        jobs: None,
        dry_run: true,
    }
}

fn refusal(a: &RenderArgs) -> String {
    a.validate().unwrap_err().message()
}

fn sfz_refusal(a: &RenderSfzArgs) -> String {
    a.validate().unwrap_err().message()
}

#[test]
fn valid_defaults_pass() {
    assert!(base().validate().is_ok());
}

#[test]
fn virtual_midi_alone_passes() {
    let mut a = base();
    a.midi_output = None;
    a.virtual_midi = true;
    assert!(a.validate().is_ok());
}

#[test]
fn no_midi_source_fails() {
    let mut a = base();
    a.midi_output = None;
    a.virtual_midi = false;
    assert!(a.validate().is_err());
    assert_eq!(
        refusal(&a),
        "specify a MIDI output: --midi-output <NAME|INDEX> or --virtual-midi"
    );
}

#[test]
fn both_midi_sources_fail() {
    let mut a = base();
    a.virtual_midi = true; // midi_output already Some
    assert!(a.validate().is_err());
    assert_eq!(refusal(&a), "use either --midi-output or --virtual-midi, not both");
}

#[test]
fn invalid_velocity_fails() {
    let mut a = base();
    a.velocity = 200;
    assert!(a.validate().is_err());
}

#[test]
fn cli_invalid_velocity_fails() {
    let mut a = base();
    a.velocity = 200;
    assert!(refusal(&a).contains("velocity"));
    assert_eq!(refusal(&a), "velocity must be 0..=127 (got 200)");
}

#[test]
fn invalid_channel_fails() {
    let mut a = base();
    a.channel = 0;
    assert!(a.validate().is_err());
    a.channel = 17;
    assert!(a.validate().is_err());
}

#[test]
fn cli_invalid_channel_fails() {
    let mut a = base();
    a.channel = 17;
    assert!(refusal(&a).contains("channel"));
    assert_eq!(refusal(&a), "channel must be 1..=16 (got 17)");
}

#[test]
fn invalid_slot_length_fails() {
    let mut a = base();
    a.slot_length = number(0.0);
    assert!(a.validate().is_err());
}

#[test]
fn cli_invalid_slot_length_fails() {
    let mut a = base();
    a.slot_length = number(0.0);
    assert!(refusal(&a).contains("slot-length"));
    assert_eq!(refusal(&a), "slot-length must be greater than 0 (got 0)");
}

#[test]
fn non_44100_sample_rate_fails() {
    let mut a = base();
    a.sample_rate = 48_000;
    assert!(a.validate().is_err());
}

#[test]
fn cli_non_44100_sample_rate_fails() {
    let mut a = base();
    a.sample_rate = 48_000;
    assert!(refusal(&a).contains("44100"));
    assert_eq!(
        refusal(&a),
        "v1 only supports --sample-rate 44100 (got 48000); set your audio device to 44.1 kHz or omit the flag"
    );
}

#[test]
fn invalid_probe_values_fail() {
    let mut a = base();
    a.probe_ms = 0;
    assert!(a.validate().is_err());
    assert_eq!(refusal(&a), "probe-ms must be greater than 0");
    let mut b = base();
    b.probe_threshold = level(-1.0);
    assert!(b.validate().is_err());
    assert_eq!(refusal(&b), "probe-threshold must be >= 0 (got -1)");
}

#[test]
fn invalid_auto_slot_length_values_fail() {
    let mut a = base();
    a.auto_slot_length = true;
    a.max_slot_length = number(0.0);
    assert!(a.validate().is_err());
    let mut b = base();
    b.auto_slot_length = true;
    b.measure_notes = 0;
    assert!(b.validate().is_err());
    // The same bad values are ignored when auto is off.
    let mut c = base();
    c.max_slot_length = number(0.0);
    c.measure_notes = 0;
    assert!(c.validate().is_ok());
}

#[test]
fn channels_resolve_mapping() {
    // Forced layouts ignore the source channel count.
    assert_eq!(Channels::Mono.resolve(2), 1);
    assert_eq!(Channels::Stereo.resolve(1), 2);
    // Auto follows the source.
    assert_eq!(Channels::Auto.resolve(1), 1);
    assert_eq!(Channels::Auto.resolve(2), 2);
    assert_eq!(Channels::Auto.resolve(4), 2);
}

#[test]
fn chord_and_chords_are_mutually_exclusive() {
    let mut a = base();
    a.chord = Some(ChordQuality::Maj);
    a.chords = Some(vec![ChordQuality::Min]);
    assert!(a.validate().is_err());
}

#[test]
fn file_per_chord_requires_chords() {
    let mut a = base();
    a.file_per_chord = true;
    assert!(a.validate().is_err());
    assert_eq!(refusal(&a), "--file-per-chord only applies with --chords");
    a.chords = Some(vec![ChordQuality::Maj]);
    assert!(a.validate().is_ok());
}

#[test]
fn per_octave_requires_chords_and_excludes_file_per_chord() {
    let mut a = base();
    a.per_octave = true;
    assert!(a.validate().is_err()); // needs --chords
    assert_eq!(refusal(&a), "--per-octave only applies with --chords");
    a.chords = Some(vec![ChordQuality::Maj]);
    assert!(a.validate().is_ok());
    a.file_per_chord = true;
    assert!(a.validate().is_err()); // not both
    assert_eq!(refusal(&a), "use either --per-octave or --file-per-chord, not both");
}

#[test]
fn packed_max_slices_is_capped_at_255() {
    let mut a = base();
    a.chords = Some(vec![ChordQuality::Maj]);
    a.max_slices = 256;
    assert!(a.validate().is_err());
    assert_eq!(
        refusal(&a),
        "max-slices must be <= 255 (the M8 fixed-slice maximum); got 256"
    );
    a.max_slices = 255;
    assert!(a.validate().is_ok());
    a.max_slices = 0;
    assert_eq!(refusal(&a), "max-slices must be at least 1");
}

#[test]
fn resolved_chords_expands_empty_to_all() {
    let mut a = base();
    a.chords = None;
    assert!(a.resolved_chords().is_empty());
    a.chords = Some(vec![]);
    assert_eq!(a.resolved_chords().len(), ChordQuality::ALL.len());
    a.chords = Some(vec![ChordQuality::Maj]);
    assert_eq!(a.resolved_chords(), vec![ChordQuality::Maj]);
}

#[test]
fn lengths_are_compared_as_numbers() {
    for bad in [0.0, -0.0, -1.0, f64::NAN, -f64::NAN, f64::NEG_INFINITY] {
        let mut a = base();
        a.slot_length = number(bad);
        assert!(matches!(a.validate(), Err(ArgError::SlotLength(_))));
        let mut b = base();
        b.note_length = number(bad);
        assert!(matches!(b.validate(), Err(ArgError::NoteLength(_))));
        let mut c = base();
        c.auto_slot_length = true;
        c.max_slot_length = number(bad);
        assert!(matches!(c.validate(), Err(ArgError::MaxSlotLength(_))));
    }
    for good in [5e-324, 0.25, 1e300, f64::INFINITY] {
        let mut a = base();
        a.slot_length = number(good);
        assert!(a.validate().is_ok());
    }
}

#[test]
fn thresholds_and_margins_may_be_zero_of_either_sign() {
    for (x, ok) in [(0.0, true), (-0.0, true), (0.5, true), (-1e-9, false), (f64::NAN, false)] {
        let mut a = base();
        a.auto_slot_length = true;
        a.slot_margin = number(x);
        assert_eq!(a.validate().is_ok(), ok);
        let mut b = base();
        b.auto_slot_length = true;
        b.decay_threshold = level(x as f32);
        assert_eq!(b.validate().is_ok(), ok);
        let mut c = base();
        c.probe_threshold = level(x as f32);
        assert_eq!(c.validate().is_ok(), ok);
    }
    let mut a = base();
    a.auto_slot_length = true;
    a.slot_margin = number(-0.5);
    assert_eq!(refusal(&a), "slot-margin must be >= 0 (got -0.5)");
    let mut b = base();
    b.auto_slot_length = true;
    b.decay_threshold = level(-0.5);
    assert_eq!(refusal(&b), "decay-threshold must be >= 0 (got -0.5)");
    let mut c = base();
    c.auto_slot_length = true;
    c.measure_notes = 0;
    assert_eq!(refusal(&c), "measure-notes must be at least 1");
}

#[test]
fn note_ranges_are_checked() {
    let mut a = base();
    a.end_midi = 128;
    assert_eq!(refusal(&a), "MIDI notes must be 0..=127");
    a.end_midi = 10;
    a.start_midi = 11;
    assert_eq!(refusal(&a), "start-midi (11) must be <= end-midi (10)");
    a.start_midi = 10;
    assert!(a.validate().is_ok());
    a.test_note = Some(128);
    assert_eq!(refusal(&a), "test-note must be 0..=127 (got 128)");
    a.test_note = Some(127);
    assert!(a.validate().is_ok());
}

#[test]
fn the_first_fault_is_reported() {
    let mut a = base();
    a.velocity = 128;
    a.channel = 0;
    a.sample_rate = 1;
    assert!(matches!(a.validate(), Err(ArgError::Velocity(128))));
    a.velocity = 127;
    assert!(matches!(a.validate(), Err(ArgError::Channel(0))));
    a.channel = 16;
    assert!(matches!(a.validate(), Err(ArgError::InputRate(1))));
}

#[test]
fn render_sfz_chord_and_chords_are_mutually_exclusive() {
    let mut a = sfz_base();
    a.chord = Some(ChordQuality::Maj);
    a.chords = Some(vec![ChordQuality::Min]);
    assert!(sfz_refusal(&a).contains("--chord"));
    assert_eq!(
        sfz_refusal(&a),
        "use either --chord (one quality, slice = root) or --chords (packed), not both"
    );
}

#[test]
fn render_sfz_rejects_non_sfz_file() {
    let mut a = sfz_base();
    a.sfz = vec!["instrument.sf2".to_string()];
    assert!(sfz_refusal(&a).contains(".sfz"));
    assert_eq!(sfz_refusal(&a), "--sfz expects a .sfz file (got instrument.sf2)");
    // Every file counts, in any case of the letters.
    a.sfz = vec!["a.SFZ".to_string(), "dir.sfz/b".to_string()];
    assert_eq!(sfz_refusal(&a), "--sfz expects a .sfz file (got dir.sfz/b)");
    a.sfz = vec!["a.SfZ".to_string(), "b.sfz".to_string()];
    assert!(a.validate().is_ok());
    a.sfz = vec![];
    assert_eq!(sfz_refusal(&a), "provide at least one --sfz file");
}

#[test]
fn render_sfz_non_44100_sample_rate_fails() {
    let mut a = sfz_base();
    a.sample_rate = 48_000;
    assert!(sfz_refusal(&a).contains("44100"));
    assert_eq!(
        sfz_refusal(&a),
        "v1 only supports --sample-rate 44100 (got 48000); omit the flag"
    );
}

#[test]
fn render_sfz_checks_its_own_values() {
    assert!(sfz_base().validate().is_ok());
    let mut a = sfz_base();
    a.velocities = Some(vec![]);
    assert_eq!(sfz_refusal(&a), "--velocities needs at least one value");
    a.velocities = Some(vec![127, 128, 200]);
    assert_eq!(sfz_refusal(&a), "each --velocities value must be 0..=127 (got 128)");
    let mut b = sfz_base();
    b.variations = 0;
    assert_eq!(sfz_refusal(&b), "variations must be at least 1");
    let mut c = sfz_base();
    c.jobs = Some(0);
    assert_eq!(sfz_refusal(&c), "--jobs must be at least 1");
    c.jobs = Some(1);
    assert!(c.validate().is_ok());
    let mut d = sfz_base();
    d.chords = Some(vec![]);
    d.per_octave = true;
    assert!(d.validate().is_ok());
    d.file_per_chord = true;
    assert_eq!(sfz_refusal(&d), "use either --per-octave or --file-per-chord, not both");
    d.chords = None;
    assert_eq!(sfz_refusal(&d), "--file-per-chord only applies with --chords");
}

#[test]
fn velocities_and_jitter_have_defaults() {
    let mut a = sfz_base();
    assert_eq!(a.resolved_velocities(), vec![100]);
    a.velocities = Some(vec![40, 80]);
    assert_eq!(a.resolved_velocities(), vec![40, 80]);
    assert_eq!(a.effective_jitter(), 0);
    a.variations = 2;
    assert_eq!(a.effective_jitter(), 8);
    a.velocity_jitter = Some(3);
    assert_eq!(a.effective_jitter(), 3);
    assert_eq!(a.resolved_chords(), vec![]);
}
