//! The plan that a dry run prints.
use crate::analysis::preview_preps;
use crate::chord_files::{quality_tags, tags_of};
use crate::chords::ChordQuality;
use crate::cli::{requested_chords, RenderArgs, RenderSfzArgs};
use crate::output::{folder_text, output_wav_path, render_dir, wav_path_text};
use crate::render::{note_range, notes_between, wants_notes};
use crate::render_sfz::{build_jobs, job_models, prep_models, run_jobs, Job, JobModel, PrepModel};
use crate::telling::{lemma_plan_tells_what_was_asked, tells_what_was_asked};
use crate::text::{decimal, decimal_text, join, joined, say, texts};
use vstd::prelude::*;

verus! {

/// Adds a line of a label and a text.
fn say_pair(lines: &mut Vec<String>, label: &str, text: &str)
    ensures
        texts(final(lines)@) == texts(old(lines)@).push(label@ + text@),
{
    let mut s = label.to_string();
    s.append(text);
    say(lines, s);
}

/// Adds a line of a label, a text and a tail.
fn say_of(lines: &mut Vec<String>, label: &str, text: &str, tail: &str)
    ensures
        texts(final(lines)@) == texts(old(lines)@).push(label@ + text@ + tail@),
{
    let mut s = label.to_string();
    s.append(text);
    s.append(tail);
    say(lines, s);
}

/// The MIDI output that a live run uses.
pub open spec fn midi_output_text(args: RenderArgs) -> Seq<char> {
    if args.virtual_midi {
        "virtual port 'midi-sampler-to-m8'"@
    } else {
        match args.midi_output {
            Some(name) => name@,
            None => ""@,
        }
    }
}

/// The line on the slot length.
pub open spec fn slot_length_text(
    auto_slot_length: bool,
    max_slot_length: Seq<char>,
    slot_length: Seq<char>,
    measured: Seq<char>,
) -> Seq<char> {
    if auto_slot_length {
        measured + max_slot_length + "s)"@
    } else {
        "  Slot length : "@ + slot_length + "s"@
    }
}

/// The lines on the devices and the notes of a live run.
pub open spec fn plan_head(args: RenderArgs, notes: nat) -> Seq<Seq<char>> {
    seq![
        "DRY RUN — no devices are opened\n"@,
        "  MIDI output : "@ + midi_output_text(args),
        "  Audio input : "@ + args.audio_input@,
        "  Notes range : "@ + decimal(args.start_midi as nat) + ".."@ + decimal(args.end_midi as nat)
            + " ("@ + decimal(notes) + " notes)"@,
        "  Velocity    : "@ + decimal(args.velocity as nat),
        "  Channel     : "@ + decimal(args.channel as nat),
        "  Note length : "@ + args.note_length.text@ + "s"@,
        slot_length_text(
            args.auto_slot_length,
            args.max_slot_length.text@,
            args.slot_length.text@,
            "  Slot length : auto (measured once at runtime, max "@,
        ),
        "  Pre-roll    : "@ + decimal(args.pre_roll_ms as nat) + "ms"@,
        if args.no_probe {
            "  Probe       : off"@
        } else {
            "  Probe       : on ("@ + decimal(args.probe_ms as nat) + " ms/note, threshold "@
                + args.probe_threshold.text@ + ") — runs once, shared by all files"@
        },
    ]
}

/// The qualities of a chord list, with commas.
pub open spec fn listed_qualities(chords: Seq<ChordQuality>) -> Seq<char> {
    joined(quality_tags(chords), ","@)
}

/// The lines on the packed chords of a live run.
pub open spec fn plan_chords(args: RenderArgs) -> Seq<Seq<char>> {
    let qs = listed_qualities(requested_chords(args.chords));
    let layout = if args.per_octave {
        "  Chords      : ["@ + qs + "] one file per octave (that octave's roots x qualities)"@
    } else if args.file_per_chord {
        "  Chords      : one file per quality ["@ + qs + "]"@
    } else {
        "  Chords      : ["@ + qs + "] packed into files of whole qualities (<= "@ + decimal(
            args.max_slices as nat,
        ) + " slices each; grouping set at runtime)"@
    };
    if args.chords is None {
        Seq::empty()
    } else if args.no_probe && !args.auto_slot_length {
        seq![
            layout,
            "  warning     : --no-probe packs the full range, so unplayable notes may be recorded as blank chords"@,
        ]
    } else {
        seq![layout]
    }
}

/// The line of a planned file.
pub open spec fn planned_file(args: RenderArgs, name: Seq<char>, notes: nat, tail: Seq<char>) -> Seq<char> {
    "    - "@ + wav_path_text(args.output@, name, notes, args.note_length.text@, false) + tail
}

/// The lines of the files that a live run would write. The counts are those of
/// the full range.
pub open spec fn plan_files(args: RenderArgs, notes: nat) -> Seq<Seq<char>> {
    let chords = requested_chords(args.chords);
    let plain = if wants_notes(args.notes, args.chord, chords) {
        seq![planned_file(args, "notes"@, notes, ""@)]
    } else {
        Seq::empty()
    };
    let chord = match args.chord {
        Some(q) => seq![planned_file(args, q.tag(), notes, ""@)],
        None => Seq::empty(),
    };
    let packed = if chords.len() == 0 {
        Seq::empty()
    } else if args.per_octave {
        seq![
            planned_file(
                args,
                "oct-<note>_<qualities>"@,
                notes,
                " … (one file per octave, each tagged oct-<note> with its qualities)"@,
            ),
        ]
    } else if args.file_per_chord {
        chords.map_values(|q: ChordQuality| planned_file(args, q.tag(), notes, ""@))
    } else {
        seq![
            planned_file(
                args,
                "<qualities>"@,
                notes,
                " … (chord qualities packed into one or more files, each tagged with its qualities)"@,
            ),
        ]
    };
    seq![
        "\n  Output folder: "@ + folder_text(args.output@),
        "  Output files (counts indicative; finalized at runtime):"@,
    ] + plain + chord + packed
}

/// The plan of a live run.
pub open spec fn plan_text(args: RenderArgs, notes: nat) -> Seq<Seq<char>> {
    plan_head(args, notes) + plan_chords(args) + plan_files(args, notes)
}

/// Says how long slots are.
fn say_slot_length(
    lines: &mut Vec<String>,
    auto_slot_length: bool,
    max_slot_length: &str,
    slot_length: &str,
    measured: &str,
)
    ensures
        texts(final(lines)@) == texts(old(lines)@).push(
            slot_length_text(auto_slot_length, max_slot_length@, slot_length@, measured@),
        ),
{
    if auto_slot_length {
        say_of(lines, measured, max_slot_length, "s)");
    } else {
        say_of(lines, "  Slot length : ", slot_length, "s");
    }
}

/// Says which devices and notes a live run uses.
fn say_head(args: &RenderArgs, notes: usize) -> (r: Vec<String>)
    ensures
        texts(r@) == plan_head(*args, notes as nat),
{
    let mut lines: Vec<String> = Vec::new();
    let midi_output: &str = if args.virtual_midi {
        "virtual port 'midi-sampler-to-m8'"
    } else {
        match &args.midi_output {
            Some(name) => name.as_str(),
            None => "",
        }
    };
    say(&mut lines, "DRY RUN — no devices are opened\n".to_string());
    say_pair(&mut lines, "  MIDI output : ", midi_output);
    say_pair(&mut lines, "  Audio input : ", args.audio_input.as_str());
    let mut range = "  Notes range : ".to_string();
    range.append(decimal_text(args.start_midi as u64).as_str());
    range.append("..");
    range.append(decimal_text(args.end_midi as u64).as_str());
    range.append(" (");
    range.append(decimal_text(notes as u64).as_str());
    range.append(" notes)");
    say(&mut lines, range);
    say_pair(&mut lines, "  Velocity    : ", decimal_text(args.velocity as u64).as_str());
    say_pair(&mut lines, "  Channel     : ", decimal_text(args.channel as u64).as_str());
    say_of(&mut lines, "  Note length : ", args.note_length.text.as_str(), "s");
    say_slot_length(
        &mut lines,
        args.auto_slot_length,
        args.max_slot_length.text.as_str(),
        args.slot_length.text.as_str(),
        "  Slot length : auto (measured once at runtime, max ",
    );
    say_of(&mut lines, "  Pre-roll    : ", decimal_text(args.pre_roll_ms).as_str(), "ms");
    if args.no_probe {
        say(&mut lines, "  Probe       : off".to_string());
    } else {
        let mut probe = "  Probe       : on (".to_string();
        probe.append(decimal_text(args.probe_ms).as_str());
        probe.append(" ms/note, threshold ");
        probe.append(args.probe_threshold.text.as_str());
        probe.append(") — runs once, shared by all files");
        say(&mut lines, probe);
    }
    assert(texts(lines@) =~= plan_head(*args, notes as nat));
    lines
}

/// The qualities of a chord list, with commas.
fn list_qualities(chords: &Vec<ChordQuality>) -> (r: String)
    ensures
        r@ == listed_qualities(chords@),
{
    let tags = tags_of(chords.as_slice());
    join(&tags, ",")
}

/// Says how a live run packs chords.
fn say_chords(args: &RenderArgs, chords: &Vec<ChordQuality>) -> (r: Vec<String>)
    requires
        chords@ == requested_chords(args.chords),
    ensures
        texts(r@) == plan_chords(*args),
{
    let mut lines: Vec<String> = Vec::new();
    if args.chords.is_some() {
        let qs = list_qualities(chords);
        if args.per_octave {
            say_of(
                &mut lines,
                "  Chords      : [",
                qs.as_str(),
                "] one file per octave (that octave's roots x qualities)",
            );
        } else if args.file_per_chord {
            say_of(&mut lines, "  Chords      : one file per quality [", qs.as_str(), "]");
        } else {
            let mut s = "  Chords      : [".to_string();
            s.append(qs.as_str());
            s.append("] packed into files of whole qualities (<= ");
            s.append(decimal_text(args.max_slices as u64).as_str());
            s.append(" slices each; grouping set at runtime)");
            say(&mut lines, s);
        }
        if args.no_probe && !args.auto_slot_length {
            say(
                &mut lines,
                "  warning     : --no-probe packs the full range, so unplayable notes may be recorded as blank chords".to_string(),
            );
        }
    }
    assert(texts(lines@) =~= plan_chords(*args));
    lines
}

/// Says which file would be written.
fn say_file(lines: &mut Vec<String>, args: &RenderArgs, name: &str, notes: usize, tail: &str)
    ensures
        texts(final(lines)@) == texts(old(lines)@).push(
            planned_file(*args, name@, notes as nat, tail@),
        ),
{
    let path = output_wav_path(
        args.output.as_str(),
        name,
        notes,
        args.note_length.text.as_str(),
        false,
    );
    say_of(lines, "    - ", path.as_str(), tail);
}

/// Says which files a live run would write.
#[verifier::rlimit(50)]
fn say_files(args: &RenderArgs, notes: usize, chords: &Vec<ChordQuality>) -> (r: Vec<String>)
    requires
        chords@ == requested_chords(args.chords),
    ensures
        texts(r@) == plan_files(*args, notes as nat),
{
    let mut lines: Vec<String> = Vec::new();
    let folder = render_dir(args.output.as_str());
    say_pair(&mut lines, "\n  Output folder: ", folder.as_str());
    say(&mut lines, "  Output files (counts indicative; finalized at runtime):".to_string());
    if args.notes || (chords.len() == 0 && args.chord.is_none()) {
        say_file(&mut lines, args, "notes", notes, "");
    }
    if let Some(q) = args.chord {
        say_file(&mut lines, args, q.short(), notes, "");
    }
    let ghost singles = texts(lines@);
    if chords.len() > 0 {
        if args.per_octave {
            say_file(
                &mut lines,
                args,
                "oct-<note>_<qualities>",
                notes,
                " … (one file per octave, each tagged oct-<note> with its qualities)",
            );
        } else if args.file_per_chord {
            let ghost all = chords@.map_values(
                |q: ChordQuality| planned_file(*args, q.tag(), notes as nat, ""@),
            );
            let mut i: usize = 0;
            while i < chords.len()
                invariant
                    i <= chords.len(),
                    all == chords@.map_values(
                        |q: ChordQuality| planned_file(*args, q.tag(), notes as nat, ""@),
                    ),
                    texts(lines@) =~= singles + all.take(i as int),
                decreases chords.len() - i,
            {
                say_file(&mut lines, args, chords[i].short(), notes, "");
                i += 1;
            }
            assert(all.take(i as int) =~= all);
        } else {
            say_file(
                &mut lines,
                args,
                "<qualities>",
                notes,
                " … (chord qualities packed into one or more files, each tagged with its qualities)",
            );
        }
    }
    assert(texts(lines@) =~= plan_files(*args, notes as nat));
    lines
}

/// Moves lines behind others.
fn append_lines(lines: &mut Vec<String>, more: Vec<String>)
    ensures
        texts(final(lines)@) == texts(old(lines)@) + texts(more@),
{
    let ghost before = texts(lines@);
    let ghost added = texts(more@);
    let mut more = more;
    lines.append(&mut more);
    assert(texts(lines@) =~= before + added);
}

/// The plan of a live run: what would be used, played and written. `notes` is the
/// number of notes in the range.
pub fn plan_lines(args: &RenderArgs, notes: usize) -> (r: Vec<String>)
    ensures
        texts(r@) == plan_text(*args, notes as nat),
        tells_what_was_asked(texts(r@), *args, notes as nat),
{
    proof {
        lemma_plan_tells_what_was_asked(*args, notes as nat);
    }
    let chords = args.resolved_chords();
    let mut lines = say_head(args, notes);
    let packing = say_chords(args, &chords);
    append_lines(&mut lines, packing);
    let files = say_files(args, notes, &chords);
    append_lines(&mut lines, files);
    lines
}

/// The lines on the fonts and the notes of an offline run.
pub open spec fn sfz_plan_head(args: RenderSfzArgs) -> Seq<Seq<char>> {
    seq![
        "DRY RUN — the engine is not run\n"@,
        "  SFZ files   : "@ + decimal(args.sfz@.len()),
    ] + texts(args.sfz@).map_values(|p: Seq<char>| "    - "@ + p) + seq![
        "  Engine      : "@ + (match args.sfizz_render {
            Some(p) => p@,
            None => "sfizz_render (from PATH)"@,
        }),
        "  Notes range : "@ + decimal(args.start_midi as nat) + ".."@ + decimal(args.end_midi as nat),
        "  Note length : "@ + args.note_length.text@ + "s"@,
        slot_length_text(
            args.auto_slot_length,
            args.max_slot_length.text@,
            args.slot_length.text@,
            "  Slot length : auto (measured per font at runtime, max "@,
        ),
        "  Velocities  : "@ + joined(velocity_texts(args.chain_velocities()), ", "@),
        "  Variations  : "@ + decimal(args.variations as nat) + " (velocity jitter +/-"@ + decimal(
            args.jitter() as nat,
        ) + ")"@,
    ]
}

/// Some velocities in decimal.
pub open spec fn velocity_texts(velocities: Seq<u8>) -> Seq<Seq<char>> {
    velocities.map_values(|v: u8| decimal(v as nat))
}

/// The lines on the chords of an offline run.
pub open spec fn sfz_plan_chords(args: RenderSfzArgs) -> Seq<Seq<char>> {
    let chords = requested_chords(args.chords);
    let qs = listed_qualities(chords);
    let chord = match args.chord {
        Some(q) => seq!["  Chord       : "@ + q.tag() + " (slice = root)"@],
        None => Seq::empty(),
    };
    let layout = if args.file_per_chord {
        seq!["  Chords      : ["@ + qs + "] one file per quality"@]
    } else {
        seq![
            "  Chords      : ["@ + qs + "] packed into files of <= "@ + decimal(
                args.max_slices as nat,
            ) + " slices"@,
        ]
    };
    let narrowed = if args.no_probe {
        Seq::empty()
    } else {
        seq![
            "                (roots narrowed to the sounding set at runtime — chord slot counts below are the full-range upper bound)"@,
        ]
    };
    if chords.len() > 0 {
        chord + layout + narrowed
    } else {
        chord
    }
}

/// The line of an offline job.
pub open spec fn planned_job(args: RenderSfzArgs, job: JobModel) -> Seq<char> {
    "    - "@ + wav_path_text(
        job.out_base,
        job.name,
        job.slots.len(),
        args.note_length.text@,
        false,
    )
}

/// The plan of an offline run with these jobs.
pub open spec fn sfz_plan_text(args: RenderSfzArgs, jobs: Seq<JobModel>) -> Seq<Seq<char>> {
    sfz_plan_head(args) + sfz_plan_chords(args) + seq![
        "\n  Output files ("@ + decimal(jobs.len()) + "):"@,
    ] + jobs.map_values(|j: JobModel| planned_job(args, j))
}

/// Writes some velocities in decimal.
fn write_velocities(velocities: &Vec<u8>) -> (r: Vec<String>)
    ensures
        texts(r@) == velocity_texts(velocities@),
{
    let mut out: Vec<String> = Vec::new();
    let mut i: usize = 0;
    while i < velocities.len()
        invariant
            i <= velocities.len(),
            texts(out@) =~= velocity_texts(velocities@).take(i as int),
        decreases velocities.len() - i,
    {
        let t = decimal_text(velocities[i] as u64);
        say(&mut out, t);
        i += 1;
    }
    assert(texts(out@) =~= velocity_texts(velocities@));
    out
}

/// Says which fonts and notes an offline run uses.
fn say_sfz_head(args: &RenderSfzArgs) -> (r: Vec<String>)
    ensures
        texts(r@) == sfz_plan_head(*args),
{
    let mut lines: Vec<String> = Vec::new();
    say(&mut lines, "DRY RUN — the engine is not run\n".to_string());
    say_pair(&mut lines, "  SFZ files   : ", decimal_text(args.sfz.len() as u64).as_str());
    let ghost top = texts(lines@);
    let ghost fonts = texts(args.sfz@).map_values(|p: Seq<char>| "    - "@ + p);
    let mut i: usize = 0;
    while i < args.sfz.len()
        invariant
            i <= args.sfz.len(),
            fonts == texts(args.sfz@).map_values(|p: Seq<char>| "    - "@ + p),
            texts(lines@) =~= top + fonts.take(i as int),
        decreases args.sfz.len() - i,
    {
        say_pair(&mut lines, "    - ", args.sfz[i].as_str());
        i += 1;
    }
    assert(fonts.take(i as int) =~= fonts);
    let engine: &str = match &args.sfizz_render {
        Some(p) => p.as_str(),
        None => "sfizz_render (from PATH)",
    };
    say_pair(&mut lines, "  Engine      : ", engine);
    let mut range = "  Notes range : ".to_string();
    range.append(decimal_text(args.start_midi as u64).as_str());
    range.append("..");
    range.append(decimal_text(args.end_midi as u64).as_str());
    say(&mut lines, range);
    say_of(&mut lines, "  Note length : ", args.note_length.text.as_str(), "s");
    say_slot_length(
        &mut lines,
        args.auto_slot_length,
        args.max_slot_length.text.as_str(),
        args.slot_length.text.as_str(),
        "  Slot length : auto (measured per font at runtime, max ",
    );
    let velocities = args.resolved_velocities();
    let shown = write_velocities(&velocities);
    say_pair(&mut lines, "  Velocities  : ", join(&shown, ", ").as_str());
    let mut takes = "  Variations  : ".to_string();
    takes.append(decimal_text(args.variations as u64).as_str());
    takes.append(" (velocity jitter +/-");
    takes.append(decimal_text(args.effective_jitter() as u64).as_str());
    takes.append(")");
    say(&mut lines, takes);
    assert(texts(lines@) =~= sfz_plan_head(*args));
    lines
}

/// Says which chords an offline run renders.
fn say_sfz_chords(args: &RenderSfzArgs) -> (r: Vec<String>)
    ensures
        texts(r@) == sfz_plan_chords(*args),
{
    let mut lines: Vec<String> = Vec::new();
    if let Some(q) = args.chord {
        say_of(&mut lines, "  Chord       : ", q.short(), " (slice = root)");
    }
    let chords = args.resolved_chords();
    if chords.len() > 0 {
        let qs = list_qualities(&chords);
        if args.file_per_chord {
            say_of(&mut lines, "  Chords      : [", qs.as_str(), "] one file per quality");
        } else {
            let mut s = "  Chords      : [".to_string();
            s.append(qs.as_str());
            s.append("] packed into files of <= ");
            s.append(decimal_text(args.max_slices as u64).as_str());
            s.append(" slices");
            say(&mut lines, s);
        }
        if !args.no_probe {
            say(
                &mut lines,
                "                (roots narrowed to the sounding set at runtime — chord slot counts below are the full-range upper bound)".to_string(),
            );
        }
    }
    assert(texts(lines@) =~= sfz_plan_chords(*args));
    lines
}

/// The plan of an offline run: what would be used, rendered and written.
pub fn sfz_plan_lines(args: &RenderSfzArgs, jobs: &Vec<Job>) -> (r: Vec<String>)
    ensures
        texts(r@) == sfz_plan_text(*args, job_models(jobs@)),
{
    let mut lines = say_sfz_head(args);
    let chords = say_sfz_chords(args);
    append_lines(&mut lines, chords);
    say_of(&mut lines, "\n  Output files (", decimal_text(jobs.len() as u64).as_str(), "):");
    let ghost top = texts(lines@);
    let ghost files = job_models(jobs@).map_values(|j: JobModel| planned_job(*args, j));
    let mut i: usize = 0;
    while i < jobs.len()
        invariant
            i <= jobs.len(),
            files == job_models(jobs@).map_values(|j: JobModel| planned_job(*args, j)),
            texts(lines@) =~= top + files.take(i as int),
        decreases jobs.len() - i,
    {
        let job = &jobs[i];
        let path = output_wav_path(
            job.out_base.as_str(),
            job.name.as_str(),
            job.slot_map.len(),
            args.note_length.text.as_str(),
            false,
        );
        proof {
            assert(job_models(jobs@)[i as int] == job@);
            assert(files[i as int] == planned_job(*args, job@));
        }
        say_pair(&mut lines, "    - ", path.as_str());
        i += 1;
    }
    assert(texts(lines@) =~= sfz_plan_text(*args, job_models(jobs@)));
    lines
}

/// What a dry live run prints, which its arguments alone set.
pub fn dry_run_lines(args: &RenderArgs) -> (r: Vec<String>)
    ensures
        texts(r@) == plan_text(*args, note_range(args.start_midi, args.end_midi).len()),
{
    let notes = notes_between(args.start_midi, args.end_midi);
    plan_lines(args, notes.len())
}

/// The analyses that a preview goes by.
pub open spec fn preview_models(args: RenderSfzArgs) -> Seq<PrepModel> {
    Seq::new(
        args.sfz@.len(),
        |i: int|
            PrepModel {
                slot_length: args.slot_length.value,
                chord_roots: note_range(args.start_midi, args.end_midi),
            },
    )
}

/// What a dry offline run prints, which its arguments alone set.
pub fn sfz_dry_run_lines(args: &RenderSfzArgs) -> (r: Vec<String>)
    ensures
        texts(r@) == sfz_plan_text(
            *args,
            run_jobs(*args, args.chain_velocities(), preview_models(*args), args.sfz@.len()),
        ),
{
    let velocities = args.resolved_velocities();
    let preps = preview_preps(args);
    assert(prep_models(preps@) =~= preview_models(*args));
    let jobs = build_jobs(args, velocities.as_slice(), &preps);
    sfz_plan_lines(args, &jobs)
}

} // verus!
