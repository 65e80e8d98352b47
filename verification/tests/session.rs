//! The course of a live run and of the slots in it.
use midi_sampler_to_m8::cli::{Channels, RenderArgs};
use midi_sampler_to_m8::level::{Binary32, Level};
use midi_sampler_to_m8::listening::{ProbeLog, TailLog};
use midi_sampler_to_m8::number::{Binary64, Number};
use midi_sampler_to_m8::playback::{
    is_quiet, next_probe_wait, tail_window, MeasureStep, Measurement, PlayStep, Playback,
};
use midi_sampler_to_m8::plan::{dry_run_lines, plan_lines};
use midi_sampler_to_m8::render::needs_countdown;
use midi_sampler_to_m8::session::{
    finish_recorded_chain, leveled, ChainLog, Outcome, Request, RunError, Session, SlotRequest, Stage,
};

fn bits(x: f64) -> Binary64 {
    Binary64 { bits: x.to_bits() }
}

fn number(x: f64) -> Number {
    Number { value: bits(x), text: format!("{x}") }
}

fn level(x: f32) -> Level {
    Level { value: Binary32 { bits: x.to_bits() }, text: format!("{x}") }
}

fn args() -> RenderArgs {
    RenderArgs {
        midi_output: Some("0".into()),
        virtual_midi: false,
        audio_input: "0".into(),
        output: "out.wav".into(),
        velocity: 100,
        channel: 1,
        note_length: number(1.0),
        slot_length: number(2.0),
        pre_roll_ms: 100,
        sample_rate: 44_100,
        channels: Channels::Auto,
        start_midi: 0,
        end_midi: 127,
        dry_run: false,
        test_note: None,
        no_probe: false,
        probe_ms: 300,
        probe_threshold: level(0.003),
        auto_slot_length: false,
        max_slot_length: number(20.0),
        measure_notes: 8,
        decay_threshold: level(0.000125),
        slot_margin: number(0.7),
        fade_ms: 10,
        unpadded: false,
        csv: false,
        json: false,
        notes: false,
        chord: None,
        chords: None,
        file_per_chord: false,
        per_octave: false,
        max_slices: 128,
        no_normalize: false,
        normalize_dbfs: number(-1.0),
        no_trim_onset: false,
        onset_dbfs: number(-55.0),
        onset_lookback_ms: 5,
        fade_in_ms: 3,
    }
}

fn planned(jobs: usize, peak_bytes: usize) -> Outcome {
    Outcome::Planned { jobs, peak_bytes }
}

#[test]
fn a_dry_run_prints_and_stops() {
    let mut a = args();
    a.dry_run = true;
    let mut s = Session::start(&a);
    assert_eq!(s.next(Outcome::Done, false), Request::PrintPlan);
    for o in [Outcome::Done, planned(3, 0), Outcome::Recorded { completed: 1 }] {
        assert_eq!(s.next(o, false), Request::Nothing);
    }
}

#[test]
fn a_plain_run_probes_and_records() {
    let mut s = Session::start(&args());
    assert_eq!(s.next(Outcome::Done, false), Request::OpenDevices);
    assert_eq!(s.next(Outcome::Done, false), Request::Probe);
    assert_eq!(s.next(Outcome::Done, false), Request::Plan);
    assert_eq!(s.next(planned(2, 1000), false), Request::Record(0));
    assert_eq!(s.next(Outcome::Recorded { completed: 0 }, false), Request::Record(1));
    assert_eq!(s.next(Outcome::Recorded { completed: 3 }, false), Request::Finish);
    assert_eq!(s.stage, Stage::Over);
}

#[test]
fn probe_and_measurement_follow_the_flags() {
    let mut a = args();
    a.no_probe = true;
    let mut s = Session::start(&a);
    s.next(Outcome::Done, false);
    assert_eq!(s.next(Outcome::Done, false), Request::Plan);
    a.auto_slot_length = true;
    let mut t = Session::start(&a);
    t.next(Outcome::Done, false);
    assert_eq!(t.next(Outcome::Done, false), Request::Probe);
    assert_eq!(t.next(Outcome::Done, false), Request::Measure);
    assert_eq!(t.next(Outcome::Done, false), Request::Plan);
    a.test_note = Some(60);
    let mut u = Session::start(&a);
    u.next(Outcome::Done, false);
    assert_eq!(u.next(Outcome::Done, false), Request::TestNote(60));
    assert_eq!(u.next(Outcome::Done, false), Request::Nothing);
}

#[test]
fn interruptions_before_recording_fail() {
    let mut a = args();
    a.auto_slot_length = true;
    let mut s = Session::start(&a);
    s.next(Outcome::Done, false);
    s.next(Outcome::Done, false);
    let mut t = s;
    assert_eq!(s.next(Outcome::Done, true), Request::Fail(RunError::Probe));
    t.next(Outcome::Done, false);
    assert_eq!(t.next(Outcome::Done, true), Request::Fail(RunError::Measurement));
    assert_eq!(RunError::Probe.message(), "interrupted during probe; nothing recorded");
    assert_eq!(RunError::Measurement.message(), "interrupted during measurement; nothing recorded");
    assert_eq!(RunError::Countdown.message(), "aborted before recording");
    assert_eq!(RunError::NothingRendered.message(), "no slots were rendered");
    assert!(RunError::Countdown.silences() && !RunError::NothingRendered.silences());
}

#[test]
fn large_runs_count_down() {
    let mut s = Session::start(&args());
    for _ in 0..3 {
        s.next(Outcome::Done, false);
    }
    let mut small = s;
    // Only above 512 MiB.
    assert_eq!(small.next(planned(1, 512 * 1024 * 1024), false), Request::Record(0));
    assert_eq!(s.next(planned(1, 512 * 1024 * 1024 + 1), false), Request::Countdown(5));
    assert!(!needs_countdown(512 * 1024 * 1024) && needs_countdown(512 * 1024 * 1024 + 1));
    for left in [4, 3, 2, 1] {
        let mut t = s;
        assert_eq!(t.next(Outcome::Done, true), Request::Fail(RunError::Countdown));
        assert_eq!(s.next(Outcome::Done, false), Request::Countdown(left));
    }
    assert_eq!(s.next(Outcome::Done, false), Request::Record(0));
}

#[test]
fn interrupted_recordings_keep_what_is_done() {
    let mut s = Session::start(&args());
    for _ in 0..3 {
        s.next(Outcome::Done, false);
    }
    let mut none = s;
    s.next(planned(3, 0), false);
    assert_eq!(s.next(Outcome::Recorded { completed: 5 }, true), Request::Finish);
    assert_eq!(
        none.next(planned(3, 0), true),
        Request::Fail(RunError::NothingRendered)
    );
}

#[test]
fn chains_log_every_slot() {
    let half = Binary32 { bits: 0.5f32.to_bits() };
    let none = Binary32 { bits: 0 };
    let mut log = ChainLog::start(vec![true, false, true, true], 2);
    assert_eq!(log.next(false), SlotRequest::Record);
    log.record(&[half, none]);
    assert_eq!(log.next(false), SlotRequest::Silent);
    log.skip();
    assert_eq!(log.next(false), SlotRequest::Record);
    assert_eq!(log.next(true), SlotRequest::Stop);
    log.record(&[none, none]);
    let (samples, statuses, completed) = log.finish();
    assert_eq!(completed, 3);
    assert_eq!(statuses, vec!["rendered", "silent", "silent", "skipped"]);
    assert_eq!(samples, vec![half, none, none, none, none, none]);
    assert_eq!(ChainLog::start(vec![], 2).next(false), SlotRequest::Stop);
}

#[test]
fn a_note_is_released_once_within_its_slot() {
    for (note, slot, release_at) in [(0.25f64, 1.0f64, 250u64), (2.0, 1.0, 900), (1.0, 1.0, 900), (0.26, 0.31, 300), (5.0, 0.05, 0)] {
        let mut p = Playback::start(bits(note), bits(slot));
        let mut waited = 0;
        let mut released = Vec::new();
        loop {
            let step = p.next(false);
            if step.release {
                released.push(waited);
            }
            waited += step.wait_ms;
            if step.done {
                break;
            }
            assert!(step.wait_ms <= 50);
        }
        assert_eq!(waited, (slot * 1000.0).round() as u64);
        assert_eq!(released, vec![release_at], "{note} in {slot}");
    }
}

#[test]
fn an_interruption_releases_at_once() {
    let mut p = Playback::start(bits(0.5), bits(1.0));
    p.next(false);
    assert_eq!(p.next(true), PlayStep { release: true, wait_ms: 0, done: true });
}

#[test]
fn probes_wait_in_chunks() {
    assert_eq!(next_probe_wait(60, 0, false), Some(25));
    assert_eq!(next_probe_wait(60, 50, false), Some(10));
    assert_eq!(next_probe_wait(60, 60, false), None);
    assert_eq!(next_probe_wait(60, 0, true), None);
}

#[test]
fn measurements_end_when_the_note_has_rung_out() {
    let mut m = Measurement::start(bits(0.1), bits(20.0));
    let mut waited = 0;
    loop {
        let step = m.next(false);
        if step.done {
            assert!(!step.release);
            break;
        }
        waited += step.wait_ms;
        // Loud for half a second, then quiet.
        m.advance(waited > 500);
    }
    assert_eq!(waited, 900);
}

#[test]
fn measurements_end_with_their_time_or_an_interruption() {
    let m = Measurement::start(bits(1.0), bits(0.5));
    assert_eq!(
        m.next(true),
        MeasureStep { release: true, wait_ms: 0, listen: false, done: true }
    );
    let mut n = m;
    let mut steps = 0;
    while !n.next(false).done {
        assert!(!n.next(false).listen);
        n.advance(true);
        steps += 1;
    }
    assert_eq!(steps, 10);
    assert!(n.next(false).release);
}

#[test]
fn quiet_is_below_the_threshold() {
    let v = |x: f32| Binary32 { bits: x.to_bits() };
    assert!(is_quiet(v(0.0), v(0.000125)));
    assert!(!is_quiet(v(0.000125), v(0.000125)));
    assert!(!is_quiet(v(0.0), v(0.0)));
    assert!(!is_quiet(v(0.0), v(f32::NAN)));
    for rate in [8_000u32, 44_100, 48_000, 96_000, 11_025] {
        assert_eq!(tail_window(rate), (rate as f64 * 0.15).round() as u64);
    }
}

#[test]
fn arguments_are_looked_at_before_the_plan() {
    let mut a = args();
    a.dry_run = true;
    let mut s = Session::begin(&a).unwrap();
    assert_eq!(s.next(Outcome::Done, false), Request::PrintPlan);
    assert_eq!(s.next(Outcome::Done, false), Request::Nothing);
    assert_eq!(dry_run_lines(&a), plan_lines(&a, 128));
    a.velocity = 200;
    assert!(Session::begin(&a).unwrap_err().message().contains("velocity"));
}

#[test]
fn recorded_chains_are_normalized_and_written_where_a_slot_is_done() {
    let half = Binary32 { bits: 0.5f32.to_bits() };
    let quarter = Binary32 { bits: 0.25f32.to_bits() };
    let one = Binary32 { bits: 1.0f32.to_bits() };
    let mut a = args();
    assert!(finish_recorded_chain(&a, ChainLog::start(vec![true], 1), one).is_none());
    let started = || {
        let mut log = ChainLog::start(vec![true, true, true], 1);
        log.record(&[half]);
        log.record(&[quarter]);
        log
    };
    let c = finish_recorded_chain(&a, started(), one).unwrap();
    assert_eq!(c.samples, vec![one, half]);
    assert_eq!(c.statuses, vec!["rendered", "rendered", "skipped"]);
    assert_eq!((c.completed, c.partial), (2, true));
    assert_eq!(leveled(&a, vec![quarter, half], one), vec![half, one]);
    a.no_normalize = true;
    assert_eq!(leveled(&a, vec![quarter, half], one), vec![quarter, half]);
    let mut log = started();
    log.record(&[half]);
    let raw = finish_recorded_chain(&a, log, one).unwrap();
    assert_eq!(raw.samples, vec![half, quarter, half]);
    assert!(!raw.partial);
}

fn samples(xs: &[f32]) -> Vec<Binary32> {
    xs.iter().map(|&x| level(x).value).collect()
}

#[test]
fn a_probe_flags_the_slots_that_reach_the_threshold() {
    let mut log = ProbeLog::start(4, level(0.003).value);
    let captures: [&[f32]; 4] = [&[0.0, -0.01], &[0.001, 0.002], &[], &[0.003]];
    for (i, capture) in captures.iter().enumerate() {
        assert_eq!(log.next(false), Some(i));
        log.hear(&samples(capture));
    }
    assert_eq!(log.next(false), None);
    assert_eq!(log.finish(), vec![true, false, false, true]);
    assert_eq!(ProbeLog::start(0, level(0.003).value).finish(), vec![]);
}

#[test]
fn an_interrupted_probe_leaves_the_other_slots_unset() {
    let mut log = ProbeLog::start(3, level(0.003).value);
    log.hear(&samples(&[1.0]));
    assert_eq!(log.next(false), Some(1));
    assert_eq!(log.next(true), None);
    assert_eq!(log.finish(), vec![true, false, false]);
    assert_eq!(ProbeLog::start(2, level(0.0).value).finish(), vec![false, false]);
}

#[test]
fn a_live_measurement_covers_the_longest_tail() {
    let a = args();
    let mut log = TailLog::start(3, 100, 1, level(0.5).value);
    let mut native = vec![0.0f32; 300];
    for (i, last) in [49usize, 199, 99].iter().enumerate() {
        assert_eq!(log.next(false), Some(i));
        native.fill(0.0);
        native[*last] = 1.0;
        assert_eq!(log.hear(&samples(&native)), bits((*last + 1) as f64 / 100.0));
    }
    assert_eq!(log.next(false), None);
    assert_eq!(log.longest(), bits(2.0));
    assert_eq!(log.finish(&a), bits(2.7));
}

#[test]
fn a_live_measurement_is_bounded_and_can_be_interrupted() {
    let mut a = args();
    let mut log = TailLog::start(2, 10, 2, level(0.5).value);
    // Nothing heard: only the margin is left, and at least a quarter of a second.
    assert_eq!(log.next(true), None);
    assert_eq!(log.longest(), bits(0.0));
    assert_eq!(log.finish(&a), bits(0.7));
    a.slot_margin = number(0.0);
    assert_eq!(log.finish(&a), bits(0.25));
    // Two channels: the fourth frame ends after four tenths of a second.
    assert_eq!(log.hear(&samples(&[0.0, 0.0, 0.0, 0.0, 0.0, 0.0, 0.0, -0.5])), bits(0.4));
    assert_eq!(log.finish(&a), bits(0.4));
    a.max_slot_length = number(0.3);
    assert_eq!(log.finish(&a), bits(0.3));
}
