//! Jobs, layouts, costs and texts of a live render.
use midi_sampler_to_m8::chain::finish_recording;
use midi_sampler_to_m8::chords::ChordQuality;
use midi_sampler_to_m8::chords::ChordQuality::{Aug, Dim, Dom7, Maj, Maj7, Min, Min7, Sus2, Sus4};
use midi_sampler_to_m8::chord_files::chord_files;
use midi_sampler_to_m8::cli::{Channels, RenderArgs};
use midi_sampler_to_m8::config::{build_config, slice_hex, M8Config};
use midi_sampler_to_m8::display::{eta_label, human_bytes, human_duration, progress_bar};
use midi_sampler_to_m8::layout::{
    fit_roots, octave_groups, pick_spread, rendered_bounds, split_chord_files,
};
use midi_sampler_to_m8::level::{Binary32, Level};
use midi_sampler_to_m8::messages::{
    batch_line, chosen_line, file_header, job_header, measuring_line, memory_line, opened_lines,
    partial_line,
    probe_line, probe_result, probing_line, recording_line, sample_notes, slot_line, tail_line,
    test_line, test_notes, unprobed_note, unprobed_warning, virtual_prompt, written_lines,
};
use midi_sampler_to_m8::notes::midi_to_m8_note;
use midi_sampler_to_m8::number::{Binary64, Number};
use midi_sampler_to_m8::output::{
    csv_map, output_wav_path, render_dir, sidecar_paths, test_note_path,
};
use midi_sampler_to_m8::outputs::{job_outputs, summary_lines};
use midi_sampler_to_m8::plan::plan_lines;
use midi_sampler_to_m8::render::{
    batch_cost, batch_estimate, build_jobs, job_sounding, packed_roots, sounding_roots, Job,
};
use midi_sampler_to_m8::slots::{build_slot_map, chord_slots};

const M8_SAMPLE_RATE: u32 = 44_100;

fn bits(x: f64) -> Binary64 {
    Binary64 { bits: x.to_bits() }
}

fn seconds(x: Binary64) -> f64 {
    f64::from_bits(x.bits)
}

fn number(x: f64) -> Number {
    Number { value: bits(x), text: format!("{x}") }
}

fn level(x: f32) -> Level {
    Level { value: Binary32 { bits: x.to_bits() }, text: format!("{x}") }
}

fn args() -> RenderArgs {
    RenderArgs {
        midi_output: Some("0".into()),
        virtual_midi: false,
        audio_input: "0".into(),
        output: "plan.wav".into(),
        velocity: 100,
        channel: 1,
        note_length: number(1.0),
        slot_length: number(1.0),
        pre_roll_ms: 100,
        sample_rate: 44_100,
        channels: Channels::Auto,
        start_midi: 0,
        end_midi: 127,
        dry_run: true,
        test_note: None,
        no_probe: false,
        probe_ms: 300,
        probe_threshold: level(0.003),
        auto_slot_length: false,
        max_slot_length: number(20.0),
        measure_notes: 8,
        decay_threshold: level(0.000125),
        slot_margin: number(0.7),
        fade_ms: 10,
        unpadded: false,
        csv: false,
        json: false,
        notes: false,
        chord: None,
        chords: None,
        file_per_chord: false,
        per_octave: false,
        max_slices: 128,
        no_normalize: false,
        normalize_dbfs: number(-1.0),
        no_trim_onset: false,
        onset_dbfs: number(-55.0),
        onset_lookback_ms: 5,
        fade_in_ms: 3,
    }
}

fn strings(xs: &[&str]) -> Vec<String> {
    xs.iter().map(|x| x.to_string()).collect()
}

#[test]
fn progress_bar_fills_and_percents() {
    assert_eq!(progress_bar(0, 10, 10), "[----------]   0%");
    assert_eq!(progress_bar(5, 10, 10), "[#####-----]  50%");
    assert_eq!(progress_bar(10, 10, 10), "[##########] 100%");
    // Empty total renders as complete rather than dividing by zero.
    assert_eq!(progress_bar(0, 0, 4), "[####] 100%");
}

#[test]
fn eta_label_projects_from_pace() {
    // 10s for 1 of 5 slots -> ~40s for the remaining 4 -> ~0.7 min.
    assert_eq!(eta_label(bits(10.0), 1, 5), "~0.7 min left");
    // Nothing done yet, or all done -> placeholder.
    assert_eq!(eta_label(bits(0.0), 0, 5), "~-- left");
    assert_eq!(eta_label(bits(50.0), 5, 5), "~-- left");
}

#[test]
fn rendered_bounds_trims_ends_and_keeps_interior() {
    let s = strings;
    // Leading/trailing silence dropped; interior silent slot (index 3) kept.
    assert_eq!(
        rendered_bounds(&s(&["silent", "silent", "rendered", "silent", "rendered", "silent"])),
        Some((2, 4))
    );
    // A trailing interrupted run ("skipped") is excluded.
    assert_eq!(
        rendered_bounds(&s(&["rendered", "skipped", "skipped"])),
        Some((0, 0))
    );
    // No rendered slots -> no range.
    assert_eq!(rendered_bounds(&s(&["silent", "silent"])), None);
}

#[test]
fn fit_roots_spreads_and_caps() {
    let pool: Vec<u8> = (36..=96).collect(); // 61 candidate roots
    // Capping to 12 keeps the endpoints and spreads evenly.
    let roots = fit_roots(&pool, 12);
    assert_eq!(roots.len(), 12);
    assert_eq!(roots.first(), Some(&36));
    assert_eq!(roots.last(), Some(&96));
    // Never more than the pool size.
    assert_eq!(fit_roots(&pool, 200).len(), 61);
    assert_eq!(fit_roots(&[60, 62], 5).len(), 2);
    // At least one, the middle one.
    assert_eq!(fit_roots(&[60, 62, 64], 0), vec![62]);
    assert!(fit_roots(&[], 3).is_empty());
}

#[test]
fn octave_groups_splits_on_octave_boundary() {
    // Roots 48..=71 span two octaves (48-59 -> octave 4, 60-71 -> octave 5).
    let roots: Vec<u8> = (48..=71).collect();
    let groups = octave_groups(&roots);
    assert_eq!(groups.len(), 2);
    assert_eq!(groups[0].0, 4);
    assert_eq!(groups[0].1, (48..=59).collect::<Vec<u8>>());
    assert_eq!(groups[1].0, 5);
    assert_eq!(groups[1].1, (60..=71).collect::<Vec<u8>>());
    // Octave 4's C is MIDI 48 -> "C3" in the M8 naming.
    assert_eq!(midi_to_m8_note(groups[0].0 * 12), "C3");
    // Runs, not sets: an octave that comes back is a group again.
    assert_eq!(octave_groups(&[0, 12, 1]).len(), 3);
}

#[test]
fn batch_cost_peaks_on_largest_file() {
    // One 128-slot job + two 122-slot jobs, 20s stereo, 100ms pre-roll.
    let slot_samples = (20.0 * M8_SAMPLE_RATE as f64).round() as usize * 2;
    let (peak, total) = batch_cost(&[128, 122, 122], &[128, 122, 122], bits(20.0), 2, 100);
    // Peak tracks the largest file (128), not the sum.
    assert_eq!(peak, 128 * slot_samples * 4);
    // Total time = all recorded slots * (slot_length + pre_roll).
    let total = seconds(total);
    assert!((total - (128 + 122 + 122) as f64 * (20.0 + 0.1)).abs() < 1e-6);
}

#[test]
fn an_estimate_counts_what_is_recorded() {
    let mut a = args();
    a.start_midi = 60;
    a.end_midi = 63;
    a.notes = true;
    a.chord = Some(Maj);
    let probed = Some(vec![true, false, false, true]);
    let jobs = build_jobs(&a, &probed, bits(1.0));
    assert_eq!(jobs.len(), 2);
    let recorded: usize =
        jobs.iter().map(|j| job_sounding(j, &probed, &a).iter().filter(|&&s| s).count()).sum();
    assert_eq!(
        batch_estimate(&a, &jobs, &probed, bits(1.0), 2),
        Some((4 * 44_100 * 2 * 4, bits(recorded as f64 * 1.1)))
    );
    // Everything is recorded without a probe.
    assert_eq!(
        batch_estimate(&a, &jobs, &None, bits(1.0), 1),
        Some((4 * 44_100 * 4, bits(8f64 * 1.1)))
    );
    assert_eq!(job_header(&jobs, 1), Some(format!("\n=== File 2/2: {} ===", jobs[1].label)));
    assert_eq!(job_header(&jobs[..1], 0), None);
    // What cannot be counted has no estimate.
    assert_eq!(batch_estimate(&a, &jobs, &None, bits(1e300), 2), None);
    assert_eq!(batch_estimate(&a, &jobs, &None, bits(1e14), 1), None);
}

#[test]
fn batch_times_match_the_machine() {
    for length in [0.25f64, 0.7, 9.0, 20.0, 1e-5, 12345.678] {
        for pre_roll in [0u64, 1, 100, 333, 1_000_000] {
            let (_, total) = batch_cost(&[1], &[3, 0, 125], bits(length), 1, pre_roll);
            let per = length + pre_roll as f64 / 1000.0;
            assert_eq!(total, bits(128f64 * per));
        }
    }
    assert_eq!(batch_cost(&[], &[], bits(1.0), 2, 100), (0, bits(0.0)));
}

#[test]
fn human_bytes_scales_units() {
    assert_eq!(human_bytes(900 * 1024 * 1024), "900 MB");
    assert_eq!(human_bytes(2 * 1024 * 1024 * 1024), "2.0 GB");
    assert_eq!(human_bytes(512 * 1024), "512 KB");
}

#[test]
fn durations_scale_units() {
    assert_eq!(human_duration(bits(30.0)), "~30s");
    assert_eq!(human_duration(bits(45.0)), "~45s");
    assert_eq!(human_duration(bits(120.0)), "2.0 min");
    assert_eq!(human_duration(bits(5400.0)), "1.5 h");
    assert_eq!(human_duration(bits(7200.0)), "2.0 h");
    assert_eq!(human_duration(bits(f64::INFINITY)), "inf h");
    assert_eq!(human_duration(bits(f64::NAN)), "~NaNs");
}

#[test]
fn split_chord_files_keeps_qualities_whole() {
    let nine = [Maj, Min, Dim, Aug, Maj7, Min7, Dom7, Sus2, Sus4];
    // 61 roots, max 128 -> 2 whole qualities per file -> 5 files [2,2,2,2,1].
    let files = split_chord_files(61, &nine, 128, false);
    assert_eq!(files.iter().map(|c| c.len()).collect::<Vec<_>>(), vec![2, 2, 2, 2, 1]);
    // file-per-chord -> one quality each.
    let per = split_chord_files(61, &nine, 128, true);
    assert_eq!(per.len(), 9);
    assert!(per.iter().all(|c| c.len() == 1));
    // Roots wider than the budget still fit one whole quality per file.
    assert!(split_chord_files(200, &nine, 128, false)
        .iter()
        .all(|c| c.len() == 1));
    // Nothing is lost and the order is kept.
    assert_eq!(files.concat(), nine.to_vec());
    assert_eq!(split_chord_files(0, &nine, 4, false).len(), 3);
}

#[test]
fn pick_spread_picks_evenly() {
    assert_eq!(pick_spread(&[10, 20, 30, 40, 50], 3), vec![10, 30, 50]);
    assert_eq!(pick_spread(&[10, 20, 30, 40, 50], 1), vec![30]);
    assert_eq!(pick_spread(&[10, 20], 5), vec![10, 20]); // n >= len
    assert_eq!(pick_spread(&[], 3), Vec::<usize>::new());
    // Picks of equal neighbours appear once.
    assert_eq!(pick_spread(&[7, 7, 7, 7], 3), vec![7]);
    assert_eq!(pick_spread(&[1, 2, 3], 0), Vec::<usize>::new());
}

#[test]
fn output_wav_path_uses_folder_and_short_name() {
    // Notes chain, whole note length renders without a decimal.
    assert_eq!(
        output_wav_path("dir/Yamaha.wav", "notes", 128, &format!("{}", 0.25), false),
        "dir/Yamaha/notes_0.25s_128slots.wav"
    );
    // Chord file with the `_unpadded` marker.
    assert_eq!(
        output_wav_path("dir/Yamaha.wav", "maj-min", 122, &format!("{}", 0.25), true),
        "dir/Yamaha/maj-min_0.25s_122slots_unpadded.wav"
    );
    // No parent dir -> folder next to the cwd; whole seconds stay integer.
    assert_eq!(
        output_wav_path("out.wav", "maj", 128, &format!("{}", 8.0), false),
        "out/maj_8s_128slots.wav"
    );
}

#[test]
fn paths_lie_beside_the_output() {
    assert_eq!(
        sidecar_paths("dir/x_1s.wav"),
        ("dir/x_1s_map.csv".to_string(), "dir/x_1s_render.json".to_string())
    );
    assert_eq!(test_note_path("dir/Yamaha.wav", 7), "dir/Yamaha_test07.wav");
    assert_eq!(test_note_path("Yamaha.wav", 107), "Yamaha_test107.wav");
    assert_eq!(render_dir("dir/Yamaha.wav"), "dir/Yamaha");
    // Without a file name there is no stem, without a parent the current folder.
    assert_eq!(render_dir("/"), "./output");
    assert_eq!(render_dir("a/.."), "a/output");
}

#[test]
fn render_dry_run_prints_plan_without_devices() {
    let a = args();
    assert!(a.validate().is_ok());
    let map = build_slot_map(a.start_midi, a.end_midi, a.slot_length.value, a.chord);
    let plan = plan_lines(&a, map.len()).join("\n");
    assert!(plan.contains("DRY RUN"));
    assert!(plan.contains("128 notes"));
    assert!(plan.contains("plan/notes_1s_128slots.wav"));
    assert_eq!(
        plan,
        "DRY RUN — no devices are opened\n\n  MIDI output : 0\n  Audio input : 0\n  Notes range : 0..127 (128 notes)\n  Velocity    : 100\n  Channel     : 1\n  Note length : 1s\n  Slot length : 1s\n  Pre-roll    : 100ms\n  Probe       : on (300 ms/note, threshold 0.003) — runs once, shared by all files\n\n  Output folder: plan\n  Output files (counts indicative; finalized at runtime):\n    - plan/notes_1s_128slots.wav"
    );
}

#[test]
fn plans_show_how_chords_are_packed() {
    let mut a = args();
    a.midi_output = None;
    a.virtual_midi = true;
    a.auto_slot_length = true;
    a.chords = Some(vec![Maj, Min]);
    a.notes = true;
    let packed = plan_lines(&a, 128);
    assert_eq!(packed[1], "  MIDI output : virtual port 'midi-sampler-to-m8'");
    assert_eq!(packed[7], "  Slot length : auto (measured once at runtime, max 20s)");
    assert_eq!(
        packed[10],
        "  Chords      : [maj,min] packed into files of whole qualities (<= 128 slices each; grouping set at runtime)"
    );
    assert_eq!(packed[13], "    - plan/notes_1s_128slots.wav");
    assert_eq!(
        packed[14],
        "    - plan/<qualities>_1s_128slots.wav … (chord qualities packed into one or more files, each tagged with its qualities)"
    );
    a.auto_slot_length = false;
    a.no_probe = true;
    a.notes = false;
    a.file_per_chord = true;
    let single = plan_lines(&a, 128);
    assert_eq!(single[9], "  Probe       : off");
    assert_eq!(single[10], "  Chords      : one file per quality [maj,min]");
    assert_eq!(
        single[11],
        "  warning     : --no-probe packs the full range, so unplayable notes may be recorded as blank chords"
    );
    assert_eq!(single[14], "    - plan/maj_1s_128slots.wav");
    assert_eq!(single[15], "    - plan/min_1s_128slots.wav");
    a.file_per_chord = false;
    a.per_octave = true;
    let octaves = plan_lines(&a, 128);
    assert_eq!(
        octaves[10],
        "  Chords      : [maj,min] one file per octave (that octave's roots x qualities)"
    );
    assert_eq!(
        octaves[14],
        "    - plan/oct-<note>_<qualities>_1s_128slots.wav … (one file per octave, each tagged oct-<note> with its qualities)"
    );
    let mut b = args();
    b.chord = Some(Sus4);
    assert_eq!(plan_lines(&b, 128).last().unwrap(), "    - plan/sus4_1s_128slots.wav");
}

fn labels(jobs: &[Job]) -> Vec<String> {
    jobs.iter().map(|j| j.label.clone()).collect()
}

#[test]
fn plain_runs_have_one_note_chain() {
    let a = args();
    let jobs = build_jobs(&a, &None, bits(1.0));
    assert_eq!(labels(&jobs), vec!["notes"]);
    assert_eq!(jobs[0].tag, None);
    assert_eq!(jobs[0].slot_map.len(), 128);
    assert!(!jobs[0].force_all && !jobs[0].csv_default);
}

#[test]
fn chord_runs_have_the_chains_asked_for() {
    let mut a = args();
    a.chord = Some(Min);
    a.notes = true;
    let jobs = build_jobs(&a, &None, bits(1.0));
    assert_eq!(labels(&jobs), vec!["notes", "min (slice=root)"]);
    assert_eq!(jobs[1].tag.as_deref(), Some("min"));
    let mut b = args();
    b.chords = Some(vec![Maj, Min, Dim]);
    // 128 roots fill a file each.
    let packed = build_jobs(&b, &None, bits(1.0));
    assert_eq!(labels(&packed), vec!["maj", "min", "dim"]);
    assert!(packed.iter().all(|j| j.force_all && j.csv_default && j.slot_map.len() == 128));
    // Ten sounding roots: all qualities share one file.
    let mut flags = vec![false; 128];
    for f in flags.iter_mut().skip(60).take(10) {
        *f = true;
    }
    let few = build_jobs(&b, &Some(flags), bits(1.0));
    assert_eq!(labels(&few), vec!["maj-min-dim"]);
    assert_eq!(few[0].slot_map.len(), 30);
    assert_eq!(few[0].slot_map[0].midi, 60);
    assert_eq!(few[0].slot_map[10].label, "C4 min");
}

#[test]
fn octave_runs_have_files_of_one_octave() {
    let mut a = args();
    a.chords = Some(vec![Maj, Min]);
    a.per_octave = true;
    a.start_midi = 48;
    a.end_midi = 71;
    let jobs = build_jobs(&a, &None, bits(1.0));
    assert_eq!(labels(&jobs), vec!["oct-C3_maj-min", "oct-C4_maj-min"]);
    assert_eq!(jobs[1].slot_map.len(), 24);
    a.max_slices = 12;
    let split = build_jobs(&a, &None, bits(1.0));
    assert_eq!(
        labels(&split),
        vec!["oct-C3_maj", "oct-C3_min", "oct-C4_maj", "oct-C4_min"]
    );
    assert!(split.iter().all(|j| j.slot_map.len() <= 12));
}

#[test]
fn packed_files_stay_within_the_budget() {
    let roots: Vec<u8> = (0..=127).collect();
    for max in [1usize, 5, 12, 24, 127, 128, 255] {
        for per_octave in [false, true] {
            let pool = if roots.len() > max { fit_roots(&roots, max) } else { roots.clone() };
            for f in chord_files(&pool, &ChordQuality::ALL, max, false, per_octave) {
                assert!(f.roots.len() * f.qualities.len() <= max);
            }
        }
    }
}

#[test]
fn roots_are_what_sounds_or_everything() {
    let mut a = args();
    a.start_midi = 60;
    a.end_midi = 63;
    let some = Some(vec![false, true, false, true]);
    assert_eq!(sounding_roots(&a, &some), vec![61, 63]);
    assert_eq!(sounding_roots(&a, &Some(vec![false; 4])), vec![60, 61, 62, 63]);
    assert_eq!(sounding_roots(&a, &None), vec![60, 61, 62, 63]);
    a.max_slices = 2;
    assert_eq!(packed_roots(&a, &None), vec![60, 63]);
    assert_eq!(packed_roots(&a, &some), vec![61, 63]);
}

#[test]
fn only_probed_silence_is_skipped() {
    let mut a = args();
    a.start_midi = 60;
    a.end_midi = 62;
    let probed = Some(vec![true, false, true]);
    let notes = &build_jobs(&a, &probed, bits(1.0))[0];
    assert_eq!(job_sounding(notes, &probed, &a), vec![true, false, true]);
    assert_eq!(job_sounding(notes, &None, &a), vec![true, true, true]);
    assert_eq!(job_sounding(notes, &Some(vec![false]), &a), vec![false, true, true]);
    a.no_probe = true;
    assert_eq!(job_sounding(notes, &probed, &a), vec![true, true, true]);
    a.no_probe = false;
    a.chords = Some(vec![Maj]);
    let chords = &build_jobs(&a, &probed, bits(1.0))[0];
    assert_eq!(job_sounding(chords, &probed, &a), vec![true, true]);
}

#[test]
fn csv_maps_describe_every_slot() {
    let slots = chord_slots(&[60], &[Maj], bits(0.7));
    let csv = csv_map(&slots, 100, &strings(&["rendered"]));
    assert_eq!(
        String::from_utf8(csv).unwrap(),
        "slot,midi_note,m8_note,chord,notes,start_seconds,end_seconds,velocity,status\n0,60,C4,C4 maj,C4 E4 G4,0.000,0.700,100,rendered\n"
    );
    // Without a status there is no row, and a field with a comma is quoted.
    let two = build_slot_map(0, 1, bits(1.0), None);
    let csv = csv_map(&two, 1, &strings(&["a,\"b"]));
    assert_eq!(
        String::from_utf8(csv).unwrap().lines().nth(1).unwrap(),
        "0,0,C-1,C-1,C-1,0.000,1.000,1,\"a,\"\"b\""
    );
}

#[test]
fn job_outputs_follow_the_flags() {
    let mut a = args();
    a.output = "dir/Yamaha.wav".to_string();
    a.start_midi = 60;
    a.end_midi = 63;
    let job = &build_jobs(&a, &None, bits(1.0))[0];
    let statuses = strings(&["silent", "rendered", "rendered", "skipped"]);
    let plain = job_outputs(&a, job, &statuses, 10);
    assert_eq!(plain.folder, "dir/Yamaha");
    assert_eq!(plain.written(), vec!["dir/Yamaha/notes_1s_4slots.wav"]);
    a.unpadded = true;
    a.csv = true;
    a.json = true;
    let all = job_outputs(&a, job, &statuses, 10);
    let cut = all.unpadded.as_ref().unwrap();
    assert_eq!((cut.first, cut.end), (10, 30));
    assert_eq!(
        all.written(),
        vec![
            "dir/Yamaha/notes_1s_4slots.wav",
            "dir/Yamaha/notes_1s_2slots_unpadded.wav",
            "dir/Yamaha/notes_1s_4slots_map.csv",
            "dir/Yamaha/notes_1s_4slots_render.json",
        ]
    );
    assert_eq!(
        summary_lines(&all, 4, "mono"),
        vec![
            "  WAV      : dir/Yamaha/notes_1s_4slots.wav (mono, SLICE=04)",
            "  Unpadded : dir/Yamaha/notes_1s_2slots_unpadded.wav",
            "  CSV      : dir/Yamaha/notes_1s_4slots_map.csv",
            "  JSON     : dir/Yamaha/notes_1s_4slots_render.json",
        ]
    );
    // Nothing sounded: nothing to cut out.
    assert!(job_outputs(&a, job, &strings(&["silent"; 4]), 10).unpadded.is_none());
    // Chord files get their legend unasked.
    let mut c = args();
    c.chords = Some(vec![Maj]);
    c.start_midi = 60;
    c.end_midi = 60;
    let chord = &build_jobs(&c, &None, bits(1.0))[0];
    assert_eq!(
        job_outputs(&c, chord, &strings(&["rendered"]), 10).written(),
        vec!["plan/maj_1s_1slots.wav", "plan/maj_1s_1slots_map.csv"]
    );
}

#[test]
fn configs_describe_the_render() {
    let a = args();
    let c = build_config(
        &a,
        "Port",
        "Input",
        2,
        bits(2.5),
        120,
        &Some("maj".to_string()),
        "out/maj.wav",
        "out/maj_map.csv",
    );
    assert_eq!(c.mode, "midi-render");
    assert_eq!((c.output_wav.as_str(), c.output_map.as_str()), ("maj.wav", "maj_map.csv"));
    assert_eq!((c.format.sample_rate, c.format.bit_depth, c.format.channels), (44_100, 16, 2));
    assert_eq!((c.midi.output.as_str(), c.audio.input.as_str()), ("Port", "Input"));
    assert_eq!((c.midi.channel, c.midi.velocity), (1, 100));
    assert_eq!(c.render.slot_length_seconds, bits(2.5));
    assert_eq!(c.render.note_length_seconds, bits(1.0));
    assert_eq!((c.render.slice_count, c.render.m8_slice_hex.as_str()), (120, "78"));
    assert_eq!(c.render.chord.as_deref(), Some("maj"));
    assert_eq!((c.m8.slice.as_str(), c.m8.load_into.as_str()), ("78", "Sampler"));
    let standard = M8Config::standard();
    assert_eq!(standard.slice, "80");
    assert_eq!((standard.play.as_str(), standard.start.as_str(), standard.len.as_str()), ("FWD", "00", "FF"));
    assert_eq!(slice_hex(128), "80");
    assert_eq!(slice_hex(5), "05");
    assert_eq!(slice_hex(0), "00");
    assert_eq!(slice_hex(2749), "ABD");
    // A path without a file name leaves the name empty.
    assert_eq!(build_config(&a, "", "", 1, bits(1.0), 1, &None, "..", "x").output_wav, "");
}

#[test]
fn lines_tell_what_happens() {
    let mut a = args();
    assert_eq!(
        opened_lines(&a, "Port", "In", 48_000, 2),
        vec![
            "MIDI output : Port",
            "Audio input : In (48000 Hz, 2 ch native)",
            "Output      : stereo (auto, matched source)",
            "  note: capturing at 48000 Hz and resampling to 44100 Hz",
        ]
    );
    a.virtual_midi = true;
    a.channels = Channels::Mono;
    assert_eq!(
        opened_lines(&a, "Port", "In", 44_100, 2),
        vec![
            "MIDI output : virtual port 'Port'",
            "Audio input : In (44100 Hz, 2 ch native)",
            "Output      : mono",
        ]
    );
    assert_eq!(
        virtual_prompt("P"),
        "\nVirtual MIDI port 'P' is open.\nIn your instrument's MIDI settings, enable 'P' as an input,\nthen press Enter here to start..."
    );
    assert_eq!(test_line(&a, 60), "Test note 60 (C4)");
    assert_eq!(test_notes(&a, 60), vec![60]);
    a.chord = Some(Maj);
    assert_eq!(test_line(&a, 60), "Test C4 maj");
    assert_eq!(test_notes(&a, 60), vec![60, 64, 67]);
    assert_eq!(
        unprobed_warning(&a),
        "warning: --no-probe with --chords packs the full 0..127 range, so unplayable notes may be recorded as blank chords. Drop --no-probe to pack only sounding roots."
    );
    assert_eq!(
        batch_line(3, 512 * 1024, bits(90.0)),
        "\nBatch plan: 3 file(s) — peak ~512 KB in RAM, ~1.5 min total."
    );
    // One tilde, whichever form the time has.
    assert_eq!(
        batch_line(1, 0, bits(30.0)),
        "\nBatch plan: 1 file(s) — peak ~0 KB in RAM, ~30s total."
    );
    assert_eq!(
        batch_line(1, 0, bits(7200.0)),
        "\nBatch plan: 1 file(s) — peak ~0 KB in RAM, ~2.0 h total."
    );
    assert_eq!(
        recording_line(&vec![true], bits(-60.0)),
        "Recording 1 slots at -60.0s each — estimated ~-1.0 min."
    );
    assert_eq!(
        memory_line(1 << 30),
        "  This holds ~1.0 GB in memory. Starting in 5s — press Ctrl-C to abort."
    );
    assert_eq!(file_header(0, 2, "maj"), "\n=== File 1/2: maj ===");
    assert_eq!(unprobed_note(&a, &None), None);
    a.chords = Some(vec![Maj]);
    assert_eq!(unprobed_note(&a, &None), Some(unprobed_warning(&a)));
    assert_eq!(unprobed_note(&a, &Some(vec![])), None);
    assert_eq!(partial_line(3, 9), "Interrupted after 3/9 slots. Writing partial output.");
    assert_eq!(
        recording_line(&vec![true, false, true], bits(9.0)),
        "Recording 2 slots at 9.0s each — estimated ~0.3 min."
    );
    assert_eq!(written_lines(&strings(&["a", "b"])), vec!["\nWrote 2 file(s):", "  a", "  b"]);
}

#[test]
fn slot_lines_line_up() {
    let map = build_slot_map(60, 61, bits(1.0), None);
    assert_eq!(
        slot_line(&map[0], 0, 2, bits(30.0)),
        "\r[#####-----]  50%  Slot   1/2  MIDI  60  C4        ~0.5 min left   "
    );
    assert_eq!(
        slot_line(&map[1], 1, 2, bits(60.0)),
        "\r[##########] 100%  Slot   2/2  MIDI  61  C#4       ~-- left   "
    );
    assert_eq!(probing_line(2, 300), "Probing 2 notes (300 ms each) to find which produce sound...");
    assert_eq!(probe_line(&map[1], 1, 2), "\rProbe   2/2  MIDI  61  C#4        ");
    assert_eq!(
        probe_result(&map, &vec![false, true]),
        "Found 1 sounding notes (MIDI 61..61, C#4 to C#4)."
    );
    assert_eq!(
        probe_result(&map, &vec![true, true]),
        "Found 2 sounding notes (MIDI 60..61, C4 to C#4)."
    );
    assert_eq!(
        probe_result(&map, &vec![false, false]),
        "No sounding notes detected — every slot will be silent."
    );
    assert_eq!(measuring_line(8), "Measuring ring-out of 8 note(s) to size the slot...");
    assert_eq!(tail_line(&vec![60, 64], bits(1.237)), "  MIDI  60 C4    tail 1.24s");
    assert_eq!(tail_line(&vec![], bits(0.0)), "  MIDI   0 C-1   tail 0.00s");
    assert_eq!(
        chosen_line(bits(1.0), bits(0.7), bits(20.0), bits(1.7)),
        "Chosen slot length: 1.70s (longest tail 1.00s + 0.70s margin)."
    );
    assert_eq!(
        chosen_line(bits(19.5), bits(0.7), bits(20.0), bits(20.0)),
        "Chosen slot length: 20.00s (hit the 20.0s cap — raise --max-slot-length or set --slot-length manually if notes are cut)."
    );
}

#[test]
fn measured_slots_are_spread_over_what_sounds() {
    let map = build_slot_map(60, 69, bits(1.0), None);
    let mut flags = vec![false; 10];
    flags[2] = true;
    flags[5] = true;
    flags[9] = true;
    let probed = Some(flags);
    assert_eq!(sample_notes(&map, &probed, 2), vec![vec![62], vec![69]]);
    assert_eq!(sample_notes(&map, &Some(vec![false; 10]), 1), vec![vec![65]]);
    assert_eq!(sample_notes(&map, &None, 1), vec![vec![65]]);
    assert_eq!(sample_notes(&map, &probed, 9).len(), 3);
}

#[test]
fn a_recording_is_trimmed_and_faded() {
    let mut a = args();
    a.onset_lookback_ms = 0;
    a.fade_in_ms = 1;
    a.fade_ms = 2;
    let mut native = vec![0.0f32; 100];
    native.extend(vec![0.5f32; 1_000]);
    let native: Vec<Binary32> = native.iter().map(|x| Binary32 { bits: x.to_bits() }).collect();
    let onset = level(0.1).value;
    let finish = |a: &RenderArgs| -> Vec<f32> {
        finish_recording(a, &native, 44_100, 1, 1, bits(0.01), onset)
            .iter()
            .map(|x| f32::from_bits(x.bits))
            .collect()
    };
    let slot = finish(&a);
    assert_eq!(slot.len(), 441);
    // 44 frames up, 88 frames down.
    assert_eq!(slot[0], 0.0);
    assert!(slot[1] > 0.0 && slot[43] == 0.5 && slot[200] == 0.5);
    assert_eq!(slot[441 - 88], 0.5);
    assert!(slot[441 - 87] < 0.5 && slot[440] == 0.0);
    a.no_trim_onset = true;
    let raw = finish(&a);
    assert_eq!(raw[99], 0.0);
    assert_eq!(raw[100], 0.5);
}
