//! Offline renders: takes, chains, jobs, probes, measurements and plans.
use midi_sampler_to_m8::analysis::{
    chosen_slot_length, font_prep, job_file, length_ms, longer, longest_among, measure_file,
    measured_slot_length, measuring_velocity, needs_probe, notes_to_measure, pool_of, preview_preps,
    probe_file, probe_hits,
};
use midi_sampler_to_m8::batch::{Batch, BatchOutcome, BatchRequest};
use midi_sampler_to_m8::chain::finish_chain;
use midi_sampler_to_m8::chords::ChordQuality;
use midi_sampler_to_m8::cli::{Channels, RenderSfzArgs};
use midi_sampler_to_m8::engine::{
    engine_arguments, engine_candidates, first_found, locate_engine, temp_names, EngineError,
};
use midi_sampler_to_m8::level::{Binary32, Level};
use midi_sampler_to_m8::messages::{batch_verdict, font_line, font_report, Verdict};
use midi_sampler_to_m8::number::{Binary64, Number};
use midi_sampler_to_m8::outputs::{job_summary, sfz_config, sfz_job_outputs};
use midi_sampler_to_m8::plan::{sfz_dry_run_lines, sfz_plan_lines};
use midi_sampler_to_m8::render_sfz::{
    base_chains, build_jobs, font_output_base, font_stem, BaseChain, FontPrep,
};
use midi_sampler_to_m8::takes::{slot_velocities, splitmix64};

fn bits(x: f64) -> Binary64 {
    Binary64 { bits: x.to_bits() }
}

fn number(x: f64) -> Number {
    Number { value: bits(x), text: format!("{x}") }
}

fn level(x: f32) -> Level {
    Level { value: Binary32 { bits: x.to_bits() }, text: format!("{x}") }
}

fn samples(xs: &[f32]) -> Vec<Binary32> {
    xs.iter().map(|x| Binary32 { bits: x.to_bits() }).collect()
}

fn base_args() -> RenderSfzArgs {
    RenderSfzArgs {
        sfz: vec!["inst.sfz".to_string()],
        sfizz_render: None,
        output: None,
        velocity: 100,
        velocities: None,
        note_length: number(4.0),
        slot_length: number(5.0),
        sample_rate: 44_100,
        channels: Channels::Auto,
        start_midi: 21,
        end_midi: 108,
        chord: None,
        chords: None,
        file_per_chord: false,
        per_octave: false,
        max_slices: 128,
        notes: false,
        auto_slot_length: false,
        max_slot_length: number(20.0),
        measure_notes: 8,
        decay_threshold: level(0.000125),
        slot_margin: number(0.7),
        no_probe: false,
        probe_ms: 250,
        probe_threshold: level(0.003),
        variations: 1,
        velocity_jitter: None,
        fade_ms: 10,
        fade_in_ms: 3,
        no_normalize: false,
        normalize_dbfs: number(-1.0),
        unpadded: false,
        csv: false,
        json: false,
        jobs: None,
        dry_run: false,
    }
}

/// Tags of the base chains for a config (order-preserving). Uses the full range as
/// chord roots (as the runtime does when the probe is skipped).
fn base_chain_tags(args: &RenderSfzArgs) -> Vec<String> {
    let roots: Vec<u8> = (args.start_midi..=args.end_midi).collect();
    base_chains(args, bits(5.0), &roots).into_iter().map(|c| c.tag).collect()
}

/// A `FontPrep` with the given slot length and a full 0..127 root set.
fn prep(slot_length: f64) -> FontPrep {
    FontPrep { slot_length: bits(slot_length), chord_roots: (0u8..=127).collect() }
}

#[test]
fn clean_take_uses_base_velocity() {
    assert_eq!(slot_velocities(4, 100, 8, 0), vec![100, 100, 100, 100]);
    assert_eq!(slot_velocities(3, 90, 0, 5), vec![90, 90, 90]);
}

#[test]
fn variation_take_jitters_within_range_and_is_deterministic() {
    let a = slot_velocities(16, 100, 8, 1);
    let b = slot_velocities(16, 100, 8, 1);
    assert_eq!(a, b, "same seed -> identical take");
    assert!(a.iter().all(|&v| (92..=108).contains(&v)), "within +/-8 of 100");
    let c = slot_velocities(16, 100, 8, 2);
    assert_ne!(a, c);
}

#[test]
fn jitter_clamps_to_valid_velocity() {
    let v = slot_velocities(64, 3, 8, 1);
    assert!(v.iter().all(|&x| (1..=127).contains(&x)));
}

#[test]
fn takes_follow_the_mixing_function() {
    // The published sequence of the finalizer for seeds 0 and 1.
    assert_eq!(splitmix64(0), 0xE220_A839_7B1D_CDAF);
    assert_eq!(splitmix64(1), 0x910A_2DEC_8902_5CC1);
    let expected: Vec<u8> = (0..32u64)
        .map(|i| {
            let r = splitmix64((3u64 << 40) ^ i ^ 0xA5A5_1234_5678);
            (120 + (r % 41) as i32 - 20).clamp(1, 127) as u8
        })
        .collect();
    assert_eq!(slot_velocities(32, 120, 20, 3), expected);
}

#[test]
fn notes_chain_is_default_and_explicit() {
    // Plain run: one notes chain.
    let args = base_args();
    assert_eq!(base_chain_tags(&args), vec!["notes"]);
    // --notes alongside chords: notes + one packed file per fitting group.
    let mut a = base_args();
    a.chords = Some(vec![ChordQuality::Maj, ChordQuality::Min]);
    a.notes = true;
    let tags = base_chain_tags(&a);
    assert_eq!(tags.first().map(String::as_str), Some("notes"));
    assert!(tags.iter().any(|t| t.contains("maj")));
}

#[test]
fn chords_pack_and_file_per_chord() {
    // 88 roots (21..108), 3 qualities, max 128 -> 1 quality/file -> 3 files.
    let mut a = base_args();
    a.chords = Some(vec![ChordQuality::Maj, ChordQuality::Min, ChordQuality::Dim]);
    assert_eq!(base_chain_tags(&a), vec!["maj", "min", "dim"]);
    // --file-per-chord forces one quality each regardless of budget.
    a.file_per_chord = true;
    assert_eq!(base_chain_tags(&a).len(), 3);
}

#[test]
fn build_jobs_multiplies_chains_by_velocity_and_variation() {
    let mut a = base_args();
    a.chords = Some(vec![ChordQuality::Maj, ChordQuality::Min]); // 2 chord files + no notes
    a.velocities = Some(vec![40, 90]);
    a.variations = 2;
    let vels = a.resolved_velocities();
    let jobs = build_jobs(&a, &vels, &vec![prep(5.0)]);
    // 2 base chains x 2 velocities x 2 variations = 8 jobs.
    assert_eq!(jobs.len(), 8);
    assert!(jobs.iter().any(|j| j.name == "maj_v40_take01"));
    assert!(jobs.iter().any(|j| j.name == "min_v90_take02"));
    // These are all chord jobs (tagged for the JSON sidecar only).
    assert!(jobs.iter().all(|j| j.is_chord));
    // No two of them share a name.
    for i in 0..jobs.len() {
        assert!(jobs[..i].iter().all(|j| j.name != jobs[i].name));
    }
}

#[test]
fn single_axis_names_stay_bare() {
    let a = base_args();
    let jobs = build_jobs(&a, &a.resolved_velocities(), &vec![prep(5.0)]);
    assert_eq!(jobs.len(), 1);
    assert_eq!(jobs[0].name, "notes");
    assert_eq!(jobs[0].label, "inst / notes");
}

#[test]
fn per_font_slot_length_flows_into_jobs() {
    let mut a = base_args();
    a.sfz = vec!["a.sfz".to_string(), "b.sfz".to_string()];
    let jobs = build_jobs(&a, &a.resolved_velocities(), &vec![prep(2.5), prep(7.0)]);
    let a_len = jobs.iter().find(|j| j.sfz.ends_with("a.sfz")).unwrap().slot_length;
    let b_len = jobs.iter().find(|j| j.sfz.ends_with("b.sfz")).unwrap().slot_length;
    assert_eq!((a_len, b_len), (bits(2.5), bits(7.0)));
}

#[test]
fn chords_pack_only_sounding_roots() {
    // Chord files pack the sounding roots, not the full range. A 10-root
    // sounding set: both qualities fit one file (10*2 <= 128) -> one 20-slot file.
    let mut a = base_args();
    a.chords = Some(vec![ChordQuality::Maj, ChordQuality::Min]);
    let sounding: Vec<u8> = (60..70).collect();
    let packed: Vec<BaseChain> = base_chains(&a, bits(5.0), &sounding)
        .into_iter()
        .filter(|c| c.is_chord)
        .collect();
    assert_eq!(packed.len(), 1);
    assert_eq!(packed[0].slot_map.len(), 20, "10 sounding roots x 2 qualities");

    // --file-per-chord: one quality per file, each compact to the sounding roots.
    a.file_per_chord = true;
    let per: Vec<BaseChain> = base_chains(&a, bits(5.0), &sounding)
        .into_iter()
        .filter(|c| c.is_chord)
        .collect();
    assert_eq!(per.len(), 2, "one file per quality");
    assert!(per.iter().all(|c| c.slot_map.len() == 10), "compact to sounding roots");
}

#[test]
fn chord_on_every_note_spans_the_range() {
    let mut a = base_args();
    a.chord = Some(ChordQuality::Maj);
    let chains = base_chains(&a, bits(5.0), &[60]);
    assert_eq!(chains.len(), 1);
    assert_eq!(chains[0].tag, "maj");
    assert!(chains[0].is_chord);
    assert_eq!(chains[0].slot_map.len(), 88);
    a.chord = None;
    a.chords = Some(vec![ChordQuality::Maj, ChordQuality::Min]);
    a.per_octave = true;
    let octaves = base_chains(&a, bits(5.0), &(60..84).collect::<Vec<u8>>());
    let tags: Vec<String> = octaves.into_iter().map(|c| c.tag).collect();
    assert_eq!(tags, vec!["oct-C4_maj-min", "oct-C5_maj-min"]);
}

#[test]
fn font_output_base_layouts() {
    let mut args = base_args();
    args.output = Some("out/Piano.wav".to_string());
    assert_eq!(font_output_base(&args, "Piano.sfz", false), "out/Piano.wav");
    assert_eq!(font_output_base(&args, "some/dir/Rhodes.sfz", true), "out/Rhodes.wav");
    args.output = None;
    assert_eq!(font_output_base(&args, "some/dir/Rhodes.sfz", false), "some/dir/Rhodes.wav");
    assert_eq!(font_stem("some/dir/Rhodes.sfz"), "Rhodes");
    assert_eq!(font_stem(".."), "sfz");
}

fn plan(a: &RenderSfzArgs) -> Vec<String> {
    assert!(a.validate().is_ok());
    let jobs = build_jobs(a, &a.resolved_velocities(), &preview_preps(a));
    sfz_plan_lines(a, &jobs)
}

#[test]
fn render_sfz_dry_run_prints_plan_without_engine() {
    let mut a = base_args();
    a.sfz = vec!["Piano.sfz".to_string()];
    a.start_midi = 60;
    a.end_midi = 72;
    a.slot_length = number(2.0);
    a.note_length = number(1.0);
    a.velocities = Some(vec![40, 90]);
    a.variations = 2;
    let lines = plan(&a);
    let text = lines.join("\n");
    assert!(text.contains("DRY RUN"));
    assert!(text.contains("Notes range : 60..72"));
    // 1 font x 2 velocities x 2 variations = 4 chains, tagged by axis.
    assert!(text.contains("Output files (4)"));
    assert!(text.contains("notes_v40_take01_1s_13slots.wav"));
    assert_eq!(
        lines,
        vec![
            "DRY RUN — the engine is not run\n",
            "  SFZ files   : 1",
            "    - Piano.sfz",
            "  Engine      : sfizz_render (from PATH)",
            "  Notes range : 60..72",
            "  Note length : 1s",
            "  Slot length : 2s",
            "  Velocities  : 40, 90",
            "  Variations  : 2 (velocity jitter +/-8)",
            "\n  Output files (4):",
            "    - Piano/notes_v40_take01_1s_13slots.wav",
            "    - Piano/notes_v40_take02_1s_13slots.wav",
            "    - Piano/notes_v90_take01_1s_13slots.wav",
            "    - Piano/notes_v90_take02_1s_13slots.wav",
        ]
    );
}

#[test]
fn render_sfz_notes_plus_chords_lists_all_files() {
    let mut a = base_args();
    a.sfz = vec!["Piano.sfz".to_string()];
    a.start_midi = 0;
    a.end_midi = 127;
    a.note_length = number(0.25);
    a.notes = true;
    a.chords = Some(vec![ChordQuality::Maj, ChordQuality::Min, ChordQuality::Dim]);
    a.auto_slot_length = true;
    let lines = plan(&a);
    let text = lines.join("\n");
    assert!(text.contains("measured per font at runtime"));
    // Notes chain pads to 128; each quality fills the 128-slice budget, so they
    // pack one-per-file -> notes + 3 chord files.
    assert!(text.contains("Output files (4)"));
    assert!(text.contains("notes_0.25s_128slots.wav"));
    assert!(text.contains("maj_0.25s_128slots.wav"));
    assert!(text.contains("dim_0.25s_128slots.wav"));
    assert_eq!(lines[9], "  Chords      : [maj,min,dim] packed into files of <= 128 slices");
    assert_eq!(
        lines[10],
        "                (roots narrowed to the sounding set at runtime — chord slot counts below are the full-range upper bound)"
    );
    a.file_per_chord = true;
    a.no_probe = true;
    let per = plan(&a);
    assert_eq!(per[9], "  Chords      : [maj,min,dim] one file per quality");
    assert_eq!(per[10], "\n  Output files (4):");
    a.chords = None;
    a.file_per_chord = false;
    a.chord = Some(ChordQuality::Dom7);
    a.sfizz_render = Some("/opt/sfizz".to_string());
    let chord = plan(&a);
    assert_eq!(chord[3], "  Engine      : /opt/sfizz");
    assert_eq!(chord[9], "  Chord       : dom7 (slice = root)");
}

#[test]
fn the_engine_is_given_or_found() {
    let given = Some("bin/sfizz".to_string());
    let dirs = ["/a".to_string(), "/b".to_string(), "/c".to_string()];
    let candidates = engine_candidates(&dirs);
    assert_eq!(candidates, vec!["/a/sfizz_render", "/b/sfizz_render", "/c/sfizz_render"]);
    assert_eq!(locate_engine(&given, true, &[], &[]).unwrap(), "bin/sfizz");
    // An explicit path that is no file is not looked for elsewhere.
    let missing = locate_engine(&given, false, &candidates, &[true, true, true]).unwrap_err();
    assert!(matches!(missing, EngineError::NotAFile(_)));
    assert_eq!(
        missing.message(),
        "--sfizz-render path does not exist or is not a file: bin/sfizz"
    );
    // The first one that is a file.
    let first = locate_engine(&None, false, &candidates, &[false, true, true]).unwrap();
    assert_eq!(first, "/b/sfizz_render");
    assert_eq!(first_found(&[false, true, true]), Some(1));
    assert_eq!(first_found(&[]), None);
    assert!(locate_engine(&None, true, &[], &[]).is_err());
    let none = locate_engine(&None, true, &candidates, &[false, false, false]).unwrap_err();
    assert!(matches!(none, EngineError::NotFound));
    assert!(none.message().starts_with("could not find `sfizz_render` on PATH.\nInstall"));
}

#[test]
fn the_engine_is_asked_for_the_whole_track() {
    assert_eq!(
        engine_arguments("a.sfz", "t.mid", "t.wav", 44_100),
        vec!["--sfz", "a.sfz", "--midi", "t.mid", "--wav", "t.wav", "--samplerate", "44100", "--use-eot"]
    );
    assert_eq!(temp_names(12, 3), ("sfizz-12-3.mid".to_string(), "sfizz-12-3.wav".to_string()));
    assert_ne!(temp_names(12, 3), temp_names(12, 4));
}

#[test]
fn probes_are_made_for_chords_and_measurements() {
    let mut a = base_args();
    assert!(!needs_probe(&a));
    a.auto_slot_length = true;
    assert!(needs_probe(&a));
    a.auto_slot_length = false;
    a.chords = Some(vec![]);
    assert!(needs_probe(&a));
    a.no_probe = true;
    assert!(!needs_probe(&a));
    assert_eq!(measuring_velocity(&[40, 120, 80]), 120);
    assert_eq!(measuring_velocity(&[]), 100);
}

#[test]
fn a_probe_keeps_the_notes_that_reach_the_threshold() {
    let mut a = base_args();
    a.start_midi = 60;
    a.end_midi = 63;
    a.probe_ms = 10;
    // 10 ms at 1000 Hz are 10 frames, stereo 20 samples a note.
    let mut chain = vec![0.0f32; 80];
    chain[25] = -0.003; // note 61
    chain[79] = 0.5; // note 63
    chain[5] = 0.0029; // note 60, too quiet
    assert_eq!(probe_hits(&a, &samples(&chain), 2, 1000), vec![61, 63]);
    // A render that ends early has no sound where it ends.
    assert_eq!(probe_hits(&a, &samples(&chain[..50]), 2, 1000), vec![61]);
    // With a threshold of zero even silence reaches it.
    a.probe_threshold = level(0.0);
    assert_eq!(probe_hits(&a, &[], 2, 1000), vec![60, 61, 62, 63]);
}

#[test]
fn a_measurement_covers_the_longest_tail() {
    let mut a = base_args();
    a.max_slot_length = number(2.0);
    a.slot_margin = number(0.25);
    a.decay_threshold = level(0.1);
    // Two slots of 2 s at 100 Hz, mono; tails end at 0.5 s and 1.0 s.
    let mut chain = vec![0.0f32; 400];
    chain[49] = 0.2;
    chain[299] = 0.2;
    assert_eq!(measured_slot_length(&a, &samples(&chain), 1, 100, 2), bits(1.25));
    assert_eq!(measured_slot_length(&a, &samples(&chain), 1, 100, 1), bits(0.75));
    // Silence gives the shortest slot, a long ring the longest.
    a.slot_margin = number(0.0);
    assert_eq!(measured_slot_length(&a, &[], 1, 100, 2), bits(0.25));
    chain[199] = 0.2;
    assert_eq!(measured_slot_length(&a, &samples(&chain), 1, 100, 2), bits(2.0));
}

#[test]
fn chosen_lengths_match_the_machine() {
    for longest in [0.0f64, 0.1, 1.0 / 3.0, 2.5, 19.5, f64::INFINITY, 1e-300] {
        for margin in [0.0f64, -0.0, 0.7, 1e-20, 1e300, f64::INFINITY] {
            for max in [0.25f64, 20.0, 1e308, f64::INFINITY] {
                assert_eq!(
                    chosen_slot_length(bits(longest), bits(margin), bits(max)),
                    bits((longest + margin).clamp(0.25, max)),
                    "{longest} + {margin} <= {max}"
                );
            }
        }
    }
}

#[test]
fn preps_cap_the_roots() {
    let mut a = base_args();
    a.max_slices = 3;
    let p = font_prep(&a, &Some(vec![60, 61, 62, 63, 64]), Some(bits(1.5)));
    assert_eq!(p.slot_length, bits(1.5));
    assert_eq!(p.chord_roots, vec![60, 62, 64]);
    let q = font_prep(&a, &Some(vec![]), None);
    assert_eq!(q.slot_length, bits(5.0));
    assert_eq!(q.chord_roots, vec![21, 64, 108]);
    assert_eq!(pool_of(&a, &None).len(), 88);
    assert_eq!(notes_to_measure(&[10, 20, 30, 40, 50], 3), vec![10, 30, 50]);
    assert_eq!(preview_preps(&a)[0].chord_roots.len(), 88);
}

#[test]
fn lengths_in_milliseconds_match_the_machine() {
    for x in [0.0f64, 0.0004, 0.0005, 0.25, 1.2345, 20.0, 4294967.295, 1e9, f64::INFINITY] {
        assert_eq!(length_ms(bits(x)), (x * 1000.0).round() as u32);
    }
}

#[test]
fn chains_that_are_too_long_have_no_file() {
    let mut a = base_args();
    let job = &build_jobs(&a, &[100], &vec![prep(5.0)])[0];
    assert!(job_file(job, &a).is_some());
    a.max_slot_length = number(1e9);
    assert!(measure_file(&a, &[60, 61], 100).is_none());
    a.probe_ms = u32::MAX as u64;
    assert!(probe_file(&a, 100).is_none());
    a.probe_ms = 250;
    assert!(probe_file(&a, 100).is_some());
}

#[test]
fn offline_outputs_and_configs() {
    let mut a = base_args();
    a.start_midi = 60;
    a.end_midi = 61;
    a.csv = true;
    a.chord = Some(ChordQuality::Maj);
    let job = &build_jobs(&a, &[90], &vec![prep(2.5)])[0];
    let statuses = vec!["rendered".to_string(), "silent".to_string()];
    let outputs = sfz_job_outputs(&a, job, &statuses, 7);
    assert_eq!(outputs.written(), vec!["inst/maj_4s_2slots.wav", "inst/maj_4s_2slots_map.csv"]);
    assert_eq!(
        job_summary(job, &outputs.wav, 2),
        "inst / maj -> inst/maj_4s_2slots.wav (stereo, 2.50s slots, SLICE=02)"
    );
    let c = sfz_config(job, &a, 2, &outputs.wav, &outputs.csv);
    assert_eq!(c.mode, "sfz-render");
    assert_eq!(c.output_wav, "maj_4s_2slots.wav");
    assert_eq!((c.midi.output.as_str(), c.midi.channel, c.midi.velocity), ("sfizz_render", 1, 90));
    assert_eq!(c.audio.input, "inst.sfz");
    assert_eq!(c.render.slot_length_seconds, bits(2.5));
    assert_eq!((c.render.pre_roll_ms, c.render.slice_count), (0, 2));
    assert_eq!(c.render.chord.as_deref(), Some("maj"));
    assert_eq!(c.m8.slice, "02");
    a.chord = None;
    let plain = &build_jobs(&a, &[90], &vec![prep(2.5)])[0];
    assert_eq!(sfz_config(plain, &a, 1, "x", "y").render.chord, None);
}

#[test]
fn font_lines_and_verdicts() {
    assert_eq!(
        font_line("dir/Piano.sfz", 88, Some(bits(2.5))),
        "  Piano                        88 sounding, slot 2.50s"
    );
    assert_eq!(font_line("Piano.sfz", 3, None), "  Piano                        3 sounding");
    let mut a = base_args();
    a.start_midi = 60;
    a.end_midi = 62;
    assert_eq!(font_report(&a, "Piano.sfz", &None, None), None);
    assert_eq!(
        font_report(&a, "Piano.sfz", &None, Some(bits(2.5))),
        Some(font_line("Piano.sfz", 3, Some(bits(2.5))))
    );
    a.chords = Some(vec![ChordQuality::Maj]);
    assert_eq!(
        font_report(&a, "Piano.sfz", &Some(vec![60]), None),
        Some(font_line("Piano.sfz", 1, None))
    );
    a.no_probe = true;
    assert_eq!(font_report(&a, "Piano.sfz", &None, None), None);
    assert_eq!(batch_verdict(true, 3), Verdict::Failed);
    assert_eq!(batch_verdict(false, 0), Verdict::NothingWritten);
    assert_eq!(batch_verdict(false, 1), Verdict::Written);
}

#[test]
fn a_rendered_chain_is_cut_into_slots_of_one_size() {
    let mut a = base_args();
    a.start_midi = 60;
    a.end_midi = 62;
    a.slot_length = number(0.01);
    a.fade_ms = 0;
    a.fade_in_ms = 0;
    let jobs = build_jobs(&a, &a.resolved_velocities(), &preview_preps(&a));
    // Stereo, 441 frames each: a loud slot, a silent one, and one cut short.
    let mut rendered = vec![0.25f32; 882];
    rendered.extend(vec![0.0f32; 882]);
    rendered.extend(vec![-0.5f32; 400]);
    let (full, statuses) = finish_chain(&a, &jobs[0], &samples(&rendered), 2, 44_100, level(1.0).value);
    assert_eq!(full.len(), 3 * 882);
    assert_eq!(statuses, vec!["rendered", "silent", "rendered"]);
    let values: Vec<f32> = full.iter().map(|x| f32::from_bits(x.bits)).collect();
    // The loudest is at the target, the rest keeps its share of it.
    assert!(values[..882].iter().all(|&x| x == 0.5));
    assert!(values[882..1764].iter().all(|&x| x == 0.0));
    assert!(values[1764..2164].iter().all(|&x| x == -1.0));
    assert!(values[2164..].iter().all(|&x| x == 0.0));
    // As rendered, and mixed down.
    a.no_normalize = true;
    a.channels = Channels::Mono;
    let (mono, _) = finish_chain(&a, &jobs[0], &samples(&rendered), 2, 44_100, level(1.0).value);
    assert_eq!(mono.len(), 3 * 441);
    assert_eq!(f32::from_bits(mono[0].bits), 0.25);
    assert_eq!(f32::from_bits(mono[3 * 441 - 1].bits), 0.0);
}

#[test]
fn a_rendered_chain_without_a_rate_is_silent() {
    let mut a = base_args();
    a.start_midi = 60;
    a.end_midi = 61;
    a.slot_length = number(0.01);
    let jobs = build_jobs(&a, &a.resolved_velocities(), &preview_preps(&a));
    let (full, statuses) = finish_chain(&a, &jobs[0], &samples(&[0.5f32; 882]), 2, 0, level(1.0).value);
    assert_eq!(full.len(), 2 * 882);
    assert!(full.iter().all(|x| x.bits == 0));
    assert_eq!(statuses, vec!["silent", "silent"]);
}

#[test]
fn a_dry_offline_run_only_prints() {
    let mut a = base_args();
    a.dry_run = true;
    let mut b = Batch::begin(&a).unwrap();
    assert_eq!(b.next(BatchOutcome::Done), BatchRequest::PrintPlan);
    for outcome in [BatchOutcome::Done, BatchOutcome::Failed, BatchOutcome::Rendered { any_failed: false, files: 3 }] {
        assert_eq!(b.next(outcome), BatchRequest::Nothing);
    }
    let jobs = build_jobs(&a, &a.resolved_velocities(), &preview_preps(&a));
    assert_eq!(sfz_dry_run_lines(&a), sfz_plan_lines(&a, &jobs));
    // Arguments are looked at first.
    a.velocity = 200;
    assert_eq!(Batch::begin(&a).unwrap_err().message(), a.validate().unwrap_err().message());
}

#[test]
fn an_offline_run_analyses_every_font_before_it_renders() {
    let mut a = base_args();
    a.sfz = vec!["a.sfz".to_string(), "b.sfz".to_string()];
    let fresh = Batch::begin(&a).unwrap();
    let mut b = fresh;
    assert_eq!(b.next(BatchOutcome::Done), BatchRequest::LocateEngine);
    let mut lost = b;
    assert_eq!(lost.next(BatchOutcome::Failed), BatchRequest::Fail);
    assert_eq!(lost.next(BatchOutcome::Done), BatchRequest::Nothing);
    assert_eq!(b.next(BatchOutcome::Done), BatchRequest::Analyse(0));
    let mut broken = b;
    assert_eq!(broken.next(BatchOutcome::Failed), BatchRequest::Fail);
    assert_eq!(b.next(BatchOutcome::Done), BatchRequest::Analyse(1));
    assert_eq!(b.next(BatchOutcome::Done), BatchRequest::Render);
    for (any_failed, files, verdict) in [(true, 4, Verdict::Failed), (false, 0, Verdict::NothingWritten), (false, 4, Verdict::Written)] {
        let mut end = b;
        assert_eq!(end.next(BatchOutcome::Rendered { any_failed, files }), BatchRequest::Finish(verdict));
    }
    assert_eq!(b.next(BatchOutcome::Failed), BatchRequest::Fail);
}

#[test]
fn a_small_maximum_bounds_the_slot_length() {
    for max in [0.1f64, 0.2499, 1e-9] {
        for longest in [0.0f64, 0.05, 3.0] {
            assert_eq!(chosen_slot_length(bits(longest), bits(0.0), bits(max)), bits(max));
        }
    }
    let mut a = base_args();
    a.auto_slot_length = true;
    a.max_slot_length = number(0.1);
    assert!(a.validate().is_ok());
    assert_eq!(measured_slot_length(&a, &[], 1, 100, 2), bits(0.1));
    assert_eq!(longer(bits(1.0), bits(2.0)), bits(2.0));
    assert_eq!(longer(bits(2.0), bits(1.0)), bits(2.0));
    assert_eq!(longest_among(&[bits(1.0), bits(3.0), bits(2.0)]), bits(3.0));
    assert_eq!(longest_among(&[]), bits(0.0));
}
