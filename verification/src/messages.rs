//! What a run says while it works.
use crate::analysis::{needs_probe, probes, with_margin};
use crate::arith::{shown, shown_over, times_whole};
use crate::chord_files::copy_notes;
use crate::chords::{chord_label, chord_notes, label_text};
use crate::cli::{Channels, RenderArgs, RenderSfzArgs, M8_SAMPLE_RATE};
use crate::display::{
    bar_text, bytes_text, estimate_text, estimated_duration, eta_label, eta_text, human_bytes,
    progress_bar,
};
use crate::layout::{pick_spread, positions, spread};
use crate::notes::{midi_to_m8_note, note_name};
use crate::number::{Binary64, INFINITY};
use crate::outputs::{layout_name, layout_text};
use crate::render::{count_flags, flag_count, Job};
use crate::render_sfz::{font_stem, font_text};
use crate::slots::{range_len, slot_notes, Slot, SlotModel};
use crate::text::{
    decimal, decimal_text, pad_left, pad_right, padded_left, padded_right, say, texts,
};
use vstd::prelude::*;

verus! {

/// The lines on the devices that were opened.
pub open spec fn opened_text(
    args: RenderArgs,
    midi_name: Seq<char>,
    audio_name: Seq<char>,
    native_rate: u32,
    native_channels: u16,
) -> Seq<Seq<char>> {
    let midi = if args.virtual_midi {
        "MIDI output : virtual port '"@ + midi_name + "'"@
    } else {
        "MIDI output : "@ + midi_name
    };
    let audio = "Audio input : "@ + audio_name + " ("@ + decimal(native_rate as nat) + " Hz, "@
        + decimal(native_channels as nat) + " ch native)"@;
    let layout = "Output      : "@ + layout_text(args.channels.count(native_channels)) + (
    if args.channels == Channels::Auto {
        " (auto, matched source)"@
    } else {
        ""@
    });
    let resampling = "  note: capturing at "@ + decimal(native_rate as nat)
        + " Hz and resampling to "@ + decimal(M8_SAMPLE_RATE as nat) + " Hz"@;
    if native_rate != M8_SAMPLE_RATE {
        seq![midi, audio, layout, resampling]
    } else {
        seq![midi, audio, layout]
    }
}

/// What is said of the devices that were opened.
pub fn opened_lines(
    args: &RenderArgs,
    midi_name: &str,
    audio_name: &str,
    native_rate: u32,
    native_channels: u16,
) -> (r: Vec<String>)
    ensures
        texts(r@) == opened_text(*args, midi_name@, audio_name@, native_rate, native_channels),
{
    let mut lines: Vec<String> = Vec::new();
    let mut midi = (if args.virtual_midi {
        "MIDI output : virtual port '"
    } else {
        "MIDI output : "
    }).to_string();
    midi.append(midi_name);
    if args.virtual_midi {
        midi.append("'");
    }
    say(&mut lines, midi);
    let mut audio = "Audio input : ".to_string();
    audio.append(audio_name);
    audio.append(" (");
    audio.append(decimal_text(native_rate as u64).as_str());
    audio.append(" Hz, ");
    audio.append(decimal_text(native_channels as u64).as_str());
    audio.append(" ch native)");
    say(&mut lines, audio);
    let mut layout = "Output      : ".to_string();
    layout.append(layout_name(args.channels.resolve(native_channels)));
    layout.append(
        if args.channels == Channels::Auto {
            " (auto, matched source)"
        } else {
            ""
        },
    );
    say(&mut lines, layout);
    if native_rate != M8_SAMPLE_RATE {
        let mut resampling = "  note: capturing at ".to_string();
        resampling.append(decimal_text(native_rate as u64).as_str());
        resampling.append(" Hz and resampling to ");
        resampling.append(decimal_text(M8_SAMPLE_RATE as u64).as_str());
        resampling.append(" Hz");
        say(&mut lines, resampling);
    }
    assert(texts(lines@) =~= opened_text(
        *args,
        midi_name@,
        audio_name@,
        native_rate,
        native_channels,
    ));
    lines
}

/// Asks the user to enable the virtual port, which exists only while the run
/// lasts.
pub fn virtual_prompt(midi_name: &str) -> (r: String)
    ensures
        r@ == "\nVirtual MIDI port '"@ + midi_name@
            + "' is open.\nIn your instrument's MIDI settings, enable '"@ + midi_name@
            + "' as an input,\nthen press Enter here to start..."@,
{
    let mut s = "\nVirtual MIDI port '".to_string();
    s.append(midi_name);
    s.append("' is open.\nIn your instrument's MIDI settings, enable '");
    s.append(midi_name);
    s.append("' as an input,\nthen press Enter here to start...");
    s
}

/// The notes of a test: the note, or the chord rooted at it.
pub fn test_notes(args: &RenderArgs, note: u8) -> (r: Vec<u8>)
    ensures
        r@ == slot_notes(note, args.chord),
{
    match args.chord {
        Some(q) => chord_notes(note, q),
        None => {
            let mut out: Vec<u8> = Vec::new();
            out.push(note);
            assert(out@ =~= seq![note]);
            out
        },
    }
}

/// The line on a test.
pub fn test_line(args: &RenderArgs, note: u8) -> (r: String)
    ensures
        r@ == (match args.chord {
            Some(q) => "Test "@ + label_text(note as nat, q),
            None => "Test note "@ + decimal(note as nat) + " ("@ + note_name(note as nat) + ")"@,
        }),
{
    match args.chord {
        Some(q) => {
            let mut s = "Test ".to_string();
            s.append(chord_label(note, q).as_str());
            s
        },
        None => {
            let mut s = "Test note ".to_string();
            s.append(decimal_text(note as u64).as_str());
            s.append(" (");
            s.append(midi_to_m8_note(note).as_str());
            s.append(")");
            s
        },
    }
}

/// The positions whose flag is set.
pub open spec fn flagged_positions(flags: Seq<bool>) -> Seq<usize>
    decreases flags.len(),
{
    if flags.len() == 0 {
        Seq::empty()
    } else {
        let before = flagged_positions(flags.drop_last());
        if flags.last() {
            before.push((flags.len() - 1) as usize)
        } else {
            before
        }
    }
}

/// The positions that are measured by: those found sounding, or all where none
/// was.
pub open spec fn measure_pool(flags: Seq<bool>, slots: nat) -> Seq<usize> {
    let sounding = flagged_positions(flags);
    if sounding.len() == 0 {
        positions(slots)
    } else {
        sounding
    }
}

/// A set flag's position is a position of the flags.
proof fn lemma_flagged_positions(flags: Seq<bool>)
    requires
        flags.len() <= usize::MAX,
    ensures
        forall|k: int|
            0 <= k < flagged_positions(flags).len() ==> #[trigger] flagged_positions(flags)[k]
                < flags.len(),
    decreases flags.len(),
{
    if flags.len() > 0 {
        let before = flagged_positions(flags.drop_last());
        let all = flagged_positions(flags);
        lemma_flagged_positions(flags.drop_last());
        assert forall|k: int| 0 <= k < all.len() implies #[trigger] all[k] < flags.len() by {
            if k < before.len() {
                assert(all[k] == before[k]);
            }
        }
    }
}

/// The note lists at some positions of a chain.
pub open spec fn notes_at(lists: Seq<Seq<u8>>, picks: Seq<usize>) -> Seq<Seq<u8>> {
    picks.map_values(|i: usize| lists[i as int])
}

/// The lists that a list of vectors holds.
pub open spec fn inner_lists(lists: Seq<Vec<u8>>) -> Seq<Seq<u8>> {
    lists.map_values(|v: Vec<u8>| v@)
}

/// The flags that a probe set; none without a probe.
pub open spec fn known_flags(probed: Option<Vec<bool>>) -> Seq<bool> {
    match probed {
        Some(flags) => flags@,
        None => Seq::empty(),
    }
}

/// What is sounded to measure the ring-out: the notes of slots spread evenly over
/// those that the probe found sounding, or over all where it found none or where
/// there was no probe.
pub fn sample_notes(slots: &Vec<Slot>, probed: &Option<Vec<bool>>, count: usize) -> (r: Vec<Vec<u8>>)
    requires
        probed matches Some(flags) ==> flags.len() == slots.len(),
    ensures
        inner_lists(r@) == notes_at(
            crate::sfz::note_lists(slots@),
            spread(measure_pool(known_flags(*probed), slots@.len()), count as nat),
        ),
{
    let none: Vec<bool> = Vec::new();
    let flags: &Vec<bool> = match probed {
        Some(p) => p,
        None => &none,
    };
    assert(flags@ =~= known_flags(*probed));
    let mut sounding: Vec<usize> = Vec::new();
    let n: usize = flags.len();
    let mut i: usize = 0;
    while i < n
        invariant
            i <= n,
            n == flags.len(),
            sounding@ == flagged_positions(flags@.take(i as int)),
        decreases n - i,
    {
        assert(flags@.take(i + 1).drop_last() =~= flags@.take(i as int));
        if flags[i] {
            sounding.push(i);
        }
        i += 1;
    }
    assert(flags@.take(i as int) =~= flags@);
    let pool = if sounding.len() == 0 {
        crate::layout::first_positions(slots.len())
    } else {
        sounding
    };
    let picks = pick_spread(pool.as_slice(), count);
    proof {
        lemma_flagged_positions(flags@);
        crate::layout::lemma_spread_stays_in_list(pool@, count as nat);
        assert forall|k: int| 0 <= k < picks@.len() implies #[trigger] picks@[k] < slots@.len() by {
            assert(pool@.contains(picks@[k]));
        }
    }
    let ghost lists = crate::sfz::note_lists(slots@);
    let mut out: Vec<Vec<u8>> = Vec::new();
    let mut k: usize = 0;
    while k < picks.len()
        invariant
            k <= picks.len(),
            lists == crate::sfz::note_lists(slots@),
            forall|j: int| 0 <= j < picks@.len() ==> #[trigger] picks@[j] < slots@.len(),
            inner_lists(out@) =~= notes_at(lists, picks@).take(k as int),
        decreases picks.len() - k,
    {
        let at: usize = picks[k];
        let notes = copy_notes(slots[at].notes.as_slice());
        proof {
            assert(lists[at as int] == slots@[at as int].notes@);
            assert(inner_lists(out@.push(notes)) =~= inner_lists(out@).push(notes@));
        }
        out.push(notes);
        k += 1;
    }
    assert(inner_lists(out@) =~= notes_at(lists, picks@));
    out
}

/// The warning that chords are packed without a probe.
pub open spec fn unprobed_text(start_midi: u8, end_midi: u8) -> Seq<char> {
    "warning: --no-probe with --chords packs the full "@ + decimal(start_midi as nat) + ".."@
        + decimal(end_midi as nat)
        + " range, so unplayable notes may be recorded as blank chords. Drop --no-probe to pack only sounding roots."@
}

/// Warns that chords are packed without a probe.
pub fn unprobed_warning(args: &RenderArgs) -> (r: String)
    ensures
        r@ == unprobed_text(args.start_midi, args.end_midi),
{
    let mut s = "warning: --no-probe with --chords packs the full ".to_string();
    s.append(decimal_text(args.start_midi as u64).as_str());
    s.append("..");
    s.append(decimal_text(args.end_midi as u64).as_str());
    s.append(
        " range, so unplayable notes may be recorded as blank chords. Drop --no-probe to pack only sounding roots.",
    );
    s
}

/// The warning on packed chords, where they are asked for and nothing was probed.
pub fn unprobed_note(args: &RenderArgs, probed: &Option<Vec<bool>>) -> (r: Option<String>)
    ensures
        r is Some <==> args.chords is Some && probed is None,
        r matches Some(s) ==> s@ == unprobed_text(args.start_midi, args.end_midi),
{
    if args.chords.is_some() && probed.is_none() {
        Some(unprobed_warning(args))
    } else {
        None
    }
}

/// The line on the cost of a batch.
pub fn batch_line(files: usize, peak_bytes: usize, total_secs: Binary64) -> (r: String)
    ensures
        r@ == "\nBatch plan: "@ + decimal(files as nat) + " file(s) — peak ~"@ + bytes_text(
            peak_bytes as nat,
        ) + " in RAM, "@ + estimate_text(total_secs) + " total."@,
{
    let mut s = "\nBatch plan: ".to_string();
    s.append(decimal_text(files as u64).as_str());
    s.append(" file(s) — peak ~");
    s.append(human_bytes(peak_bytes).as_str());
    s.append(" in RAM, ");
    s.append(estimated_duration(total_secs).as_str());
    s.append(" total.");
    s
}

/// Warns of a large batch before the countdown.
pub fn memory_line(peak_bytes: usize) -> (r: String)
    ensures
        r@ == "  This holds ~"@ + bytes_text(peak_bytes as nat)
            + " in memory. Starting in 5s — press Ctrl-C to abort."@,
{
    let mut s = "  This holds ~".to_string();
    s.append(human_bytes(peak_bytes).as_str());
    s.append(" in memory. Starting in 5s — press Ctrl-C to abort.");
    s
}

/// The header of one of several files.
pub open spec fn header_text(index: nat, files: nat, label: Seq<char>) -> Seq<char> {
    "\n=== File "@ + decimal(index + 1) + "/"@ + decimal(files) + ": "@ + label + " ==="@
}

/// The header of a file of a run, where the run has more than one.
pub fn job_header(jobs: &[Job], index: usize) -> (r: Option<String>)
    requires
        index < jobs.len(),
    ensures
        r is Some <==> jobs@.len() > 1,
        r matches Some(s) ==> s@ == header_text(
            index as nat,
            jobs@.len(),
            jobs@[index as int].label@,
        ),
{
    if jobs.len() > 1 {
        Some(file_header(index, jobs.len(), jobs[index].label.as_str()))
    } else {
        None
    }
}

/// The header of one of several files.
pub fn file_header(index: usize, files: usize, label: &str) -> (r: String)
    requires
        index < files,
    ensures
        r@ == header_text(index as nat, files as nat, label@),
{
    let mut s = "\n=== File ".to_string();
    s.append(decimal_text(index as u64 + 1).as_str());
    s.append("/");
    s.append(decimal_text(files as u64).as_str());
    s.append(": ");
    s.append(label);
    s.append(" ===");
    s
}

/// Says that a chain was interrupted.
pub fn partial_line(completed: usize, slots: usize) -> (r: String)
    ensures
        r@ == "Interrupted after "@ + decimal(completed as nat) + "/"@ + decimal(slots as nat)
            + " slots. Writing partial output."@,
{
    let mut s = "Interrupted after ".to_string();
    s.append(decimal_text(completed as u64).as_str());
    s.append("/");
    s.append(decimal_text(slots as u64).as_str());
    s.append(" slots. Writing partial output.");
    s
}

/// The line on a chain that is about to be recorded, with the minutes that it
/// takes.
pub fn recording_line(flags: &Vec<bool>, slot_length: Binary64) -> (r: String)
    ensures
        r@ == "Recording "@ + decimal(flag_count(flags@)) + " slots at "@ + shown(slot_length, 1)
            + "s each — estimated ~"@ + shown_over(
            times_whole(slot_length, flag_count(flags@)),
            60,
            1,
        ) + " min."@,
{
    let to_record: usize = count_flags(flags.as_slice());
    let mut s = "Recording ".to_string();
    s.append(decimal_text(to_record as u64).as_str());
    s.append(" slots at ");
    s.append(slot_length.fixed(1).as_str());
    s.append("s each — estimated ~");
    s.append(slot_length.times(to_record as u64).fixed_over(60, 1).as_str());
    s.append(" min.");
    s
}

/// The line on the slot at position `i` of a chain of so many.
pub open spec fn slot_line_text(slot: SlotModel, i: nat, slots: nat, elapsed: Binary64) -> Seq<char> {
    "\r"@ + bar_text(i + 1, slots, 10) + "  Slot "@ + padded_left(
        decimal(slot.slot as nat + 1),
        3,
        ' ',
    ) + "/"@ + decimal(slots) + "  MIDI "@ + padded_left(decimal(slot.midi as nat), 3, ' ') + "  "@
        + padded_right(slot.label, 8) + "  "@ + eta_text(elapsed, i + 1, slots) + "   "@
}

/// The line on the slot that is recorded next; `elapsed` is the time since the
/// chain began, in seconds.
pub fn slot_line(slot: &Slot, i: usize, slots: usize, elapsed: Binary64) -> (r: String)
    requires
        i < slots,
        elapsed.bits < INFINITY,
    ensures
        r@ == slot_line_text(slot@, i as nat, slots as nat, elapsed),
{
    let mut s = "\r".to_string();
    s.append(progress_bar(i + 1, slots, 10).as_str());
    s.append("  Slot ");
    let number = decimal_text(slot.slot as u64 + 1);
    s.append(pad_left(number.as_str(), 3, ' ').as_str());
    s.append("/");
    s.append(decimal_text(slots as u64).as_str());
    s.append("  MIDI ");
    let midi = decimal_text(slot.midi as u64);
    s.append(pad_left(midi.as_str(), 3, ' ').as_str());
    s.append("  ");
    s.append(pad_right(slot.label.as_str(), 8).as_str());
    s.append("  ");
    s.append(eta_label(elapsed, i + 1, slots).as_str());
    s.append("   ");
    s
}

/// The line on a probe that is about to start.
pub fn probing_line(slots: usize, probe_ms: u64) -> (r: String)
    ensures
        r@ == "Probing "@ + decimal(slots as nat) + " notes ("@ + decimal(probe_ms as nat)
            + " ms each) to find which produce sound..."@,
{
    let mut s = "Probing ".to_string();
    s.append(decimal_text(slots as u64).as_str());
    s.append(" notes (");
    s.append(decimal_text(probe_ms).as_str());
    s.append(" ms each) to find which produce sound...");
    s
}

/// The line on the note that is probed next.
pub fn probe_line(slot: &Slot, i: usize, slots: usize) -> (r: String)
    requires
        i < slots,
    ensures
        r@ == "\rProbe "@ + padded_left(decimal(i as nat + 1), 3, ' ') + "/"@ + decimal(slots as nat)
            + "  MIDI "@ + padded_left(decimal(slot.midi as nat), 3, ' ') + "  "@ + padded_right(
            slot.label@,
            8,
        ) + "   "@,
{
    let mut s = "\rProbe ".to_string();
    let number = decimal_text(i as u64 + 1);
    s.append(pad_left(number.as_str(), 3, ' ').as_str());
    s.append("/");
    s.append(decimal_text(slots as u64).as_str());
    s.append("  MIDI ");
    let midi = decimal_text(slot.midi as u64);
    s.append(pad_left(midi.as_str(), 3, ' ').as_str());
    s.append("  ");
    s.append(pad_right(slot.label.as_str(), 8).as_str());
    s.append("   ");
    s
}

/// The line on what a probe of some slots found.
pub open spec fn probe_result_text(slots: Seq<SlotModel>, flags: Seq<bool>) -> Seq<char> {
    let found = flagged_positions(flags);
    if found.len() == 0 {
        "No sounding notes detected — every slot will be silent."@
    } else {
        let first = slots[found[0] as int];
        let last = slots[found.last() as int];
        "Found "@ + decimal(flag_count(flags)) + " sounding notes (MIDI "@ + decimal(
            first.midi as nat,
        ) + ".."@ + decimal(last.midi as nat) + ", "@ + first.m8_note + " to "@ + last.m8_note + ")."@
    }
}

/// Says what a probe found: how many notes sound, from where to where.
pub fn probe_result(slots: &Vec<Slot>, flags: &Vec<bool>) -> (r: String)
    requires
        flags.len() == slots.len(),
    ensures
        r@ == probe_result_text(crate::slots::slot_models(slots@), flags@),
{
    let mut first: Option<usize> = None;
    let mut last: usize = 0;
    let n: usize = flags.len();
    let mut i: usize = 0;
    while i < n
        invariant
            i <= n,
            n == flags.len(),
            ({
                let found = flagged_positions(flags@.take(i as int));
                match first {
                    None => found.len() == 0,
                    Some(f) => found.len() > 0 && found[0] == f && found.last() == last && f < n
                        && last < n,
                }
            }),
        decreases n - i,
    {
        assert(flags@.take(i + 1).drop_last() =~= flags@.take(i as int));
        if flags[i] {
            if first.is_none() {
                first = Some(i);
            }
            last = i;
        }
        i += 1;
    }
    assert(flags@.take(i as int) =~= flags@);
    match first {
        None => "No sounding notes detected — every slot will be silent.".to_string(),
        Some(f) => {
            let mut s = "Found ".to_string();
            s.append(decimal_text(count_flags(flags.as_slice()) as u64).as_str());
            s.append(" sounding notes (MIDI ");
            s.append(decimal_text(slots[f].midi as u64).as_str());
            s.append("..");
            s.append(decimal_text(slots[last].midi as u64).as_str());
            s.append(", ");
            s.append(slots[f].m8_note.as_str());
            s.append(" to ");
            s.append(slots[last].m8_note.as_str());
            s.append(").");
            s
        },
    }
}

/// The line on a measurement that is about to start.
pub fn measuring_line(notes: usize) -> (r: String)
    ensures
        r@ == "Measuring ring-out of "@ + decimal(notes as nat)
            + " note(s) to size the slot..."@,
{
    let mut s = "Measuring ring-out of ".to_string();
    s.append(decimal_text(notes as u64).as_str());
    s.append(" note(s) to size the slot...");
    s
}

/// The first of some notes, zero where there is none.
pub open spec fn root_of(notes: Seq<u8>) -> u8 {
    if notes.len() > 0 {
        notes[0]
    } else {
        0
    }
}

/// The line on a measured tail.
pub fn tail_line(notes: &Vec<u8>, tail: Binary64) -> (r: String)
    ensures
        r@ == "  MIDI "@ + padded_left(decimal(root_of(notes@) as nat), 3, ' ') + " "@ + padded_right(
            note_name(root_of(notes@) as nat),
            4,
        ) + "  tail "@ + shown(tail, 2) + "s"@,
{
    let root: u8 = if notes.len() > 0 {
        notes[0]
    } else {
        0
    };
    let mut s = "  MIDI ".to_string();
    let midi = decimal_text(root as u64);
    s.append(pad_left(midi.as_str(), 3, ' ').as_str());
    s.append(" ");
    let name = midi_to_m8_note(root);
    s.append(pad_right(name.as_str(), 4).as_str());
    s.append("  tail ");
    s.append(tail.fixed(2).as_str());
    s.append("s");
    s
}

/// The line on the slot length that was chosen.
pub open spec fn chosen_text(longest: Binary64, margin: Binary64, max: Binary64, chosen: Binary64) -> Seq<
    char,
> {
    if with_margin(longest, margin).at_least(max) {
        "Chosen slot length: "@ + shown(chosen, 2) + "s (hit the "@ + shown(max, 1)
            + "s cap — raise --max-slot-length or set --slot-length manually if notes are cut)."@
    } else {
        "Chosen slot length: "@ + shown(chosen, 2) + "s (longest tail "@ + shown(longest, 2) + "s + "@
            + shown(margin, 2) + "s margin)."@
    }
}

/// Says which slot length was chosen, and why.
pub fn chosen_line(longest: Binary64, margin: Binary64, max: Binary64, chosen: Binary64) -> (r: String)
    requires
        longest.bits <= INFINITY,
        margin.is_non_negative(),
    ensures
        r@ == chosen_text(longest, margin, max, chosen),
{
    let mut s = "Chosen slot length: ".to_string();
    s.append(chosen.fixed(2).as_str());
    if crate::analysis::hits_cap(longest, margin, max) {
        s.append("s (hit the ");
        s.append(max.fixed(1).as_str());
        s.append("s cap — raise --max-slot-length or set --slot-length manually if notes are cut).");
    } else {
        s.append("s (longest tail ");
        s.append(longest.fixed(2).as_str());
        s.append("s + ");
        s.append(margin.fixed(2).as_str());
        s.append("s margin).");
    }
    s
}

/// The line on an analysed font: how many of its notes sound, and the slot length
/// where it was measured.
pub open spec fn font_line_text(sfz: Seq<char>, sounding: nat, measured: Option<Binary64>) -> Seq<char> {
    "  "@ + padded_right(font_text(sfz), 28) + " "@ + decimal(sounding) + (match measured {
        Some(length) => " sounding, slot "@ + shown(length, 2) + "s"@,
        None => " sounding"@,
    })
}

/// How many notes of a font count as sounding: those that the probe found, or the
/// whole range without one.
pub open spec fn sounding_count(args: RenderSfzArgs, sounding: Option<Vec<u8>>) -> nat {
    match sounding {
        Some(notes) => notes@.len(),
        None => range_len(args.start_midi, args.end_midi),
    }
}

/// The line on an analysed font, where it was probed or measured.
pub fn font_report(
    args: &RenderSfzArgs,
    sfz: &str,
    sounding: &Option<Vec<u8>>,
    measured: Option<Binary64>,
) -> (r: Option<String>)
    ensures
        r is Some <==> measured is Some || probes(*args),
        r matches Some(s) ==> s@ == font_line_text(
            sfz@,
            sounding_count(*args, *sounding),
            measured,
        ),
{
    if measured.is_none() && !needs_probe(args) {
        return None;
    }
    let count: usize = match sounding {
        Some(notes) => notes.len(),
        None => if args.start_midi <= args.end_midi {
            (args.end_midi - args.start_midi) as usize + 1
        } else {
            0
        },
    };
    Some(font_line(sfz, count, measured))
}

/// Says what is known of an analysed font.
pub fn font_line(sfz: &str, sounding: usize, measured: Option<Binary64>) -> (r: String)
    ensures
        r@ == font_line_text(sfz@, sounding as nat, measured),
{
    let mut s = "  ".to_string();
    let font = font_stem(sfz);
    s.append(pad_right(font.as_str(), 28).as_str());
    s.append(" ");
    s.append(decimal_text(sounding as u64).as_str());
    match measured {
        Some(length) => {
            let mut t = " sounding, slot ".to_string();
            t.append(length.fixed(2).as_str());
            t.append("s");
            s.append(t.as_str());
        },
        None => {
            s.append(" sounding");
        },
    }
    s
}

/// The lines on the files that were written.
pub open spec fn written_text(paths: Seq<Seq<char>>) -> Seq<Seq<char>> {
    seq!["\nWrote "@ + decimal(paths.len()) + " file(s):"@] + paths.map_values(
        |p: Seq<char>| "  "@ + p,
    )
}

/// Lists the files that were written.
pub fn written_lines(paths: &Vec<String>) -> (r: Vec<String>)
    ensures
        texts(r@) == written_text(texts(paths@)),
{
    let mut lines: Vec<String> = Vec::new();
    let mut top = "\nWrote ".to_string();
    top.append(decimal_text(paths.len() as u64).as_str());
    top.append(" file(s):");
    say(&mut lines, top);
    let ghost first = texts(lines@);
    let ghost rest = texts(paths@).map_values(|p: Seq<char>| "  "@ + p);
    let mut i: usize = 0;
    while i < paths.len()
        invariant
            i <= paths.len(),
            rest == texts(paths@).map_values(|p: Seq<char>| "  "@ + p),
            texts(lines@) =~= first + rest.take(i as int),
        decreases paths.len() - i,
    {
        let mut s = "  ".to_string();
        s.append(paths[i].as_str());
        say(&mut lines, s);
        i += 1;
    }
    assert(texts(lines@) =~= written_text(texts(paths@)));
    lines
}

/// How a batch of offline jobs ends.
#[derive(Copy, Clone, Debug, PartialEq, Eq, Structural)]
pub enum Verdict {
    /// Every job was written.
    Written,
    /// Some job failed.
    Failed,
    /// No job failed, and nothing was written.
    NothingWritten,
}

/// How a batch ends.
pub open spec fn verdict_of(any_failed: bool, files_written: usize) -> Verdict {
    if any_failed {
        Verdict::Failed
    } else if files_written == 0 {
        Verdict::NothingWritten
    } else {
        Verdict::Written
    }
}

/// How a batch ends: with the first failure where there is one, else by whether
/// anything was written.
pub fn batch_verdict(any_failed: bool, files_written: usize) -> (r: Verdict)
    ensures
        r == verdict_of(any_failed, files_written),
{
    if any_failed {
        Verdict::Failed
    } else if files_written == 0 {
        Verdict::NothingWritten
    } else {
        Verdict::Written
    }
}

} // verus!
