//! Where a render's files go, what they are called, and the CSV map beside them.
use crate::arith::shown;
use crate::mapping::{is_map_of, lemma_map_has_a_line_for_each_slot};
use crate::notes::{midi_to_m8_note, note_name};
use crate::paths::{file_stem, join_path, optional_text, parent, path_join, path_parent, path_stem};
use crate::plain::{
    is_plain_record, lemma_encoded_in_parts, lemma_header_is_plain, plain_line,
};
use crate::slots::{slot_models, Slot, SlotModel};
use crate::text::{decimal, decimal_text, join, joined, pad_left, padded_left, texts};
use vstd::prelude::*;
use vstd::utf8::encode_utf8;

verus! {

/// A found text, or another one where there is none.
pub open spec fn or_else(found: Option<Seq<char>>, other: Seq<char>) -> Seq<char> {
    match found {
        Some(t) => t,
        None => other,
    }
}

/// The stem that names the outputs: the one found, or `output`.
pub fn stem_or_output(found: Option<String>) -> (r: String)
    ensures
        r@ == or_else(optional_text(found), "output"@),
{
    match found {
        Some(s) => s,
        None => "output".to_string(),
    }
}

/// The folder of a path: the one found, or the current one.
pub fn dir_or_current(found: Option<String>) -> (r: String)
    ensures
        r@ == or_else(optional_text(found), "."@),
{
    match found {
        Some(s) => s,
        None => ".".to_string(),
    }
}

/// The stem that names the outputs of a path.
pub open spec fn stem_text(path: Seq<char>) -> Seq<char> {
    or_else(path_stem(path), "output"@)
}

/// The folder that a path lies in.
pub open spec fn dir_text(path: Seq<char>) -> Seq<char> {
    or_else(path_parent(path), "."@)
}

/// The stem that names the outputs of `path`.
fn output_stem(path: &str) -> (r: String)
    ensures
        r@ == stem_text(path@),
{
    stem_or_output(file_stem(path))
}

/// The folder that `path` lies in.
fn output_dir(path: &str) -> (r: String)
    ensures
        r@ == dir_text(path@),
{
    dir_or_current(parent(path))
}

/// The name of the CSV map beside a WAV of this stem.
pub fn map_name(stem: &str) -> (r: String)
    ensures
        r@ == stem@ + "_map.csv"@,
{
    let mut s = stem.to_string();
    s.append("_map.csv");
    s
}

/// The name of the JSON config beside a WAV of this stem.
pub fn config_name(stem: &str) -> (r: String)
    ensures
        r@ == stem@ + "_render.json"@,
{
    let mut s = stem.to_string();
    s.append("_render.json");
    s
}

/// Given an output WAV path, derive the sidecar paths next to it:
/// `<stem>_map.csv` and `<stem>_render.json`.
pub fn sidecar_paths(wav: &str) -> (r: (String, String))
    ensures
        r.0@ == path_join(dir_text(wav@), stem_text(wav@) + "_map.csv"@),
        r.1@ == path_join(dir_text(wav@), stem_text(wav@) + "_render.json"@),
{
    let stem = output_stem(wav);
    let dir = output_dir(wav);
    let map = map_name(stem.as_str());
    let config = config_name(stem.as_str());
    (join_path(dir.as_str(), map.as_str()), join_path(dir.as_str(), config.as_str()))
}

/// The folder of a render: beside its output path, named after its stem.
pub open spec fn folder_text(out: Seq<char>) -> Seq<char> {
    path_join(dir_text(out), stem_text(out))
}

/// The per-render output folder: `<parent>/<stem>/`.
pub fn render_dir(out: &str) -> (r: String)
    ensures
        r@ == folder_text(out@),
{
    let stem = output_stem(out);
    let dir = output_dir(out);
    join_path(dir.as_str(), stem.as_str())
}

/// The name of a chain's WAV: its role, the note length and the slot count.
pub open spec fn wav_name_text(name: Seq<char>, slots: nat, note_length: Seq<char>, unpadded: bool) -> Seq<
    char,
> {
    name + "_"@ + note_length + "s_"@ + decimal(slots) + "slots"@ + (if unpadded {
        "_unpadded"@
    } else {
        ""@
    }) + ".wav"@
}

/// The name of a chain's WAV. `note_length` is the length as it is shown, a whole
/// one without a decimal point.
pub fn wav_name(name: &str, slots: usize, note_length: &str, unpadded: bool) -> (r: String)
    ensures
        r@ == wav_name_text(name@, slots as nat, note_length@, unpadded),
{
    let mut s = name.to_string();
    s.append("_");
    s.append(note_length);
    s.append("s_");
    s.append(decimal_text(slots as u64).as_str());
    s.append("slots");
    s.append(
        if unpadded {
            "_unpadded"
        } else {
            ""
        },
    );
    s.append(".wav");
    s
}

/// The path of a chain's WAV.
pub open spec fn wav_path_text(
    out: Seq<char>,
    name: Seq<char>,
    slots: nat,
    note_length: Seq<char>,
    unpadded: bool,
) -> Seq<char> {
    path_join(folder_text(out), wav_name_text(name, slots, note_length, unpadded))
}

/// Build an output WAV path inside a per-render folder named after the output
/// stem, with a short name embedding the file's role, note length, and slot
/// count. For `dir/Yamaha.wav`: `dir/Yamaha/notes_0.25s_128slots.wav`, or
/// `..._unpadded.wav`.
pub fn output_wav_path(out: &str, name: &str, slots: usize, note_length: &str, unpadded: bool) -> (r:
    String)
    ensures
        r@ == wav_path_text(out@, name@, slots as nat, note_length@, unpadded),
{
    let folder = render_dir(out);
    let file = wav_name(name, slots, note_length, unpadded);
    join_path(folder.as_str(), file.as_str())
}

/// The name of the WAV of a test note.
pub fn test_name(stem: &str, midi: u8) -> (r: String)
    ensures
        r@ == stem@ + "_test"@ + padded_left(decimal(midi as nat), 2, '0') + ".wav"@,
{
    let mut s = stem.to_string();
    s.append("_test");
    let shown = decimal_text(midi as u64);
    s.append(pad_left(shown.as_str(), 2, '0').as_str());
    s.append(".wav");
    s
}

/// Derive the per-note test WAV path: `<stem>_testNN.wav`.
pub fn test_note_path(wav: &str, midi: u8) -> (r: String)
    ensures
        r@ == path_join(
            dir_text(wav@),
            stem_text(wav@) + "_test"@ + padded_left(decimal(midi as nat), 2, '0') + ".wav"@,
        ),
{
    let stem = output_stem(wav);
    let dir = output_dir(wav);
    let name = test_name(stem.as_str(), midi);
    join_path(dir.as_str(), name.as_str())
}

/// The column names of the CSV map.
pub open spec fn csv_header_fields() -> Seq<Seq<char>> {
    seq![
        "slot"@,
        "midi_note"@,
        "m8_note"@,
        "chord"@,
        "notes"@,
        "start_seconds"@,
        "end_seconds"@,
        "velocity"@,
        "status"@,
    ]
}

/// The names of some notes.
pub open spec fn note_names(notes: Seq<u8>) -> Seq<Seq<char>> {
    notes.map_values(|n: u8| note_name(n as nat))
}

/// The fields of a slot's row.
pub open spec fn csv_row_fields(slot: SlotModel, velocity: u8, status: Seq<char>) -> Seq<Seq<char>> {
    seq![
        decimal(slot.slot as nat),
        decimal(slot.midi as nat),
        slot.m8_note,
        slot.label,
        joined(note_names(slot.notes), " "@),
        shown(slot.start, 3),
        shown(slot.end, 3),
        decimal(velocity as nat),
        status,
    ]
}

/// Names some notes.
pub fn name_notes(notes: &Vec<u8>) -> (r: Vec<String>)
    ensures
        texts(r@) == note_names(notes@),
{
    let mut out: Vec<String> = Vec::new();
    let mut i: usize = 0;
    while i < notes.len()
        invariant
            i <= notes.len(),
            texts(out@) =~= note_names(notes@.take(i as int)),
        decreases notes.len() - i,
    {
        let name = midi_to_m8_note(notes[i]);
        proof {
            assert(texts(out@.push(name)) =~= texts(out@).push(name@));
            assert(note_names(notes@.take(i + 1)) =~= note_names(notes@.take(i as int)).push(
                note_name(notes@[i as int] as nat),
            ));
        }
        out.push(name);
        i += 1;
    }
    assert(notes@.take(i as int) =~= notes@);
    out
}

/// The header of the CSV map.
pub fn csv_header() -> (r: Vec<String>)
    ensures
        texts(r@) == csv_header_fields(),
{
    let mut out: Vec<String> = Vec::new();
    out.push("slot".to_string());
    out.push("midi_note".to_string());
    out.push("m8_note".to_string());
    out.push("chord".to_string());
    out.push("notes".to_string());
    out.push("start_seconds".to_string());
    out.push("end_seconds".to_string());
    out.push("velocity".to_string());
    out.push("status".to_string());
    assert(texts(out@) =~= csv_header_fields());
    out
}

/// The row of a slot in the CSV map. For a single note the chord column holds the
/// note name and the notes column the one note.
pub fn csv_row(slot: &Slot, velocity: u8, status: &str) -> (r: Vec<String>)
    ensures
        texts(r@) == csv_row_fields(slot@, velocity, status@),
{
    let names = name_notes(&slot.notes);
    let mut out: Vec<String> = Vec::new();
    out.push(decimal_text(slot.slot as u64));
    out.push(decimal_text(slot.midi as u64));
    out.push(slot.m8_note.clone());
    out.push(slot.label.clone());
    out.push(join(&names, " "));
    out.push(slot.start_seconds.fixed(3));
    out.push(slot.end_seconds.fixed(3));
    out.push(decimal_text(velocity as u64));
    out.push(status.to_string());
    assert(texts(out@) =~= csv_row_fields(slot@, velocity, status@));
    out
}

/// The bytes of one CSV record.
pub uninterp spec fn csv_line(fields: Seq<Seq<char>>) -> Seq<u8>;

/// `csv::Writer::write_record` on a fresh writer into memory, and what
/// `into_inner` then hands back: the record alone, set by its fields. Neither
/// fails there: the first record of a writer has no length to disagree with, and
/// writing into memory succeeds. Several fields without quotes, commas and line
/// breaks stand between commas as they are, and a line feed ends the record; how
/// other fields are quoted is not said.
#[verifier::external_body]
fn write_record(fields: &Vec<String>) -> (r: Vec<u8>)
    ensures
        r@ == csv_line(texts(fields@)),
        is_plain_record(texts(fields@)) ==> r@ == encode_utf8(plain_line(texts(fields@))),
{
    let mut writer = csv::Writer::from_writer(Vec::new());
    writer.write_record(fields).expect("in memory");
    writer.into_inner().expect("in memory")
}

/// The bytes of the CSV map: the header, then a row for each slot that has a
/// status.
pub open spec fn csv_bytes(slots: Seq<SlotModel>, velocity: u8, statuses: Seq<Seq<char>>, n: nat) -> Seq<
    u8,
>
    decreases n,
{
    if n == 0 {
        csv_line(csv_header_fields())
    } else {
        csv_bytes(slots, velocity, statuses, (n - 1) as nat) + csv_line(
            csv_row_fields(slots[n - 1], velocity, statuses[n - 1]),
        )
    }
}

/// The text of the CSV map where every row is plain: the header, then the fields of
/// each row between commas, one row to a line.
pub open spec fn csv_text(slots: Seq<SlotModel>, velocity: u8, statuses: Seq<Seq<char>>, n: nat) -> Seq<
    char,
>
    decreases n,
{
    if n == 0 {
        plain_line(csv_header_fields())
    } else {
        csv_text(slots, velocity, statuses, (n - 1) as nat) + plain_line(
            csv_row_fields(slots[n - 1], velocity, statuses[n - 1]),
        )
    }
}

/// Whether the first `n` rows of the CSV map are plain.
pub open spec fn plain_rows(slots: Seq<SlotModel>, velocity: u8, statuses: Seq<Seq<char>>, n: nat) -> bool {
    forall|i: int|
        0 <= i < n ==> is_plain_record(csv_row_fields(#[trigger] slots[i], velocity, statuses[i]))
}

/// The CSV map describing every slot's position and status. `statuses[i]` is the
/// status of `slots[i]`; a slot without a status gets no row.
pub fn csv_map(slots: &Vec<Slot>, velocity: u8, statuses: &Vec<String>) -> (r: Vec<u8>)
    ensures
        r@ == csv_bytes(
            slot_models(slots@),
            velocity,
            texts(statuses@),
            if slots.len() <= statuses.len() {
                slots.len() as nat
            } else {
                statuses.len() as nat
            },
        ),
        ({
            let n = if slots.len() <= statuses.len() {
                slots.len() as nat
            } else {
                statuses.len() as nat
            };
            let (rows, states) = (slot_models(slots@), texts(statuses@));
            plain_rows(rows, velocity, states, n) ==> r@ == encode_utf8(
                csv_text(rows, velocity, states, n),
            )
        }),
        is_map_of(
            r@,
            slot_models(slots@),
            velocity,
            texts(statuses@),
            if slots.len() <= statuses.len() {
                slots.len() as nat
            } else {
                statuses.len() as nat
            },
        ),
{
    let header = csv_header();
    let mut out = write_record(&header);
    proof {
        lemma_header_is_plain();
    }
    let n: usize = if slots.len() <= statuses.len() {
        slots.len()
    } else {
        statuses.len()
    };
    proof {
        lemma_map_has_a_line_for_each_slot(
            slot_models(slots@),
            velocity,
            texts(statuses@),
            n as nat,
        );
    }
    let mut i: usize = 0;
    while i < n
        invariant
            i <= n,
            n <= slots.len(),
            n <= statuses.len(),
            out@ == csv_bytes(slot_models(slots@), velocity, texts(statuses@), i as nat),
            plain_rows(slot_models(slots@), velocity, texts(statuses@), i as nat) ==> out@
                == encode_utf8(
                csv_text(slot_models(slots@), velocity, texts(statuses@), i as nat),
            ),
        decreases n - i,
    {
        let row = csv_row(&slots[i], velocity, statuses[i].as_str());
        let mut line = write_record(&row);
        proof {
            let (rows, states) = (slot_models(slots@), texts(statuses@));
            assert(rows[i as int] == slots@[i as int]@ && states[i as int] == statuses@[i as int]@);
            lemma_encoded_in_parts(
                csv_text(rows, velocity, states, i as nat),
                plain_line(texts(row@)),
            );
            if plain_rows(rows, velocity, states, (i + 1) as nat) {
                assert(is_plain_record(csv_row_fields(rows[i as int], velocity, states[i as int])));
            }
        }
        out.append(&mut line);
        i += 1;
    }
    out
}

} // verus!
