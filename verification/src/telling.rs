//! That a plan tells what was asked for, and names the files that a run writes.
use crate::cli::RenderArgs;
use crate::output::{folder_text, wav_path_text};
use crate::plan::{plan_chords, plan_files, plan_head, plan_text};
use crate::text::decimal;
use vstd::prelude::*;

verus! {

/// Whether the lines of a plan tell what was asked for, each in its place: the devices,
/// the notes, how they are played, how long they are and whether they are probed.
pub open spec fn tells_what_was_asked(plan: Seq<Seq<char>>, args: RenderArgs, notes: nat) -> bool {
    &&& plan.len() >= 12
    &&& args.virtual_midi ==> plan[1] == "  MIDI output : "@ + "virtual port 'midi-sampler-to-m8'"@
    &&& !args.virtual_midi ==> (args.midi_output matches Some(name) ==> plan[1] == "  MIDI output : "@
        + name@)
    &&& plan[2] == "  Audio input : "@ + args.audio_input@
    &&& plan[3] == "  Notes range : "@ + decimal(args.start_midi as nat) + ".."@ + decimal(
        args.end_midi as nat,
    ) + " ("@ + decimal(notes) + " notes)"@
    &&& plan[4] == "  Velocity    : "@ + decimal(args.velocity as nat)
    &&& plan[5] == "  Channel     : "@ + decimal(args.channel as nat)
    &&& plan[6] == "  Note length : "@ + args.note_length.text@ + "s"@
    &&& !args.auto_slot_length ==> plan[7] == "  Slot length : "@ + args.slot_length.text@ + "s"@
    &&& args.auto_slot_length ==> plan[7] == "  Slot length : auto (measured once at runtime, max "@
        + args.max_slot_length.text@ + "s)"@
    &&& plan[8] == "  Pre-roll    : "@ + decimal(args.pre_roll_ms as nat) + "ms"@
    &&& args.no_probe ==> plan[9] == "  Probe       : off"@
    &&& !args.no_probe ==> plan[9] == "  Probe       : on ("@ + decimal(args.probe_ms as nat)
        + " ms/note, threshold "@ + args.probe_threshold.text@ + ") — runs once, shared by all files"@
}

/// Whether a plan names the file of a chain over the whole range.
pub open spec fn names_file(plan: Seq<Seq<char>>, args: RenderArgs, name: Seq<char>, notes: nat) -> bool {
    exists|k: int|
        0 <= k < plan.len() && #[trigger] plan[k] == "    - "@ + wav_path_text(
            args.output@,
            name,
            notes,
            args.note_length.text@,
            false,
        ) + ""@
}

/// A plan tells what was asked for, and names the folder and the files of the chains
/// over the whole range as they will be called.
pub proof fn lemma_plan_tells_what_was_asked(args: RenderArgs, notes: nat)
    ensures
        tells_what_was_asked(plan_text(args, notes), args, notes),
        plan_text(args, notes).contains("\n  Output folder: "@ + folder_text(args.output@)),
        args.notes || (args.chord is None && args.chords is None) ==> names_file(
            plan_text(args, notes),
            args,
            "notes"@,
            notes,
        ),
        args.chord matches Some(q) ==> names_file(plan_text(args, notes), args, q.tag(), notes),
{
    let plan = plan_text(args, notes);
    let head = plan_head(args, notes);
    let files = plan_files(args, notes);
    let before = head.len() as int + plan_chords(args).len();
    assert forall|k: int| 0 <= k < head.len() implies plan[k] == #[trigger] head[k] by {}
    assert(plan[before] == files[0]);
    assert(plan.contains(files[0]));
    let noted: int = if args.notes || (args.chord is None && args.chords is None) {
        1
    } else {
        0
    };
    if noted == 1 {
        assert(plan[before + 2] == files[2]);
    }
    if args.chord is Some {
        if args.notes {
            assert(plan[before + 3] == files[3]);
        } else {
            assert(plan[before + 2] == files[2]);
        }
    }
}

} // verus!
