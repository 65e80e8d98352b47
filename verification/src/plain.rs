//! Texts that stand in a CSV record as they are.
use crate::arith::shown;
use crate::chords::ChordQuality;
use crate::notes::{note_name, octave_text, pitch_class};
use crate::number::{decimal_steps, fixed_text, ten_to, Binary64, Value};
use crate::output::{csv_header_fields, csv_row_fields, note_names, plain_rows};
use crate::slots::{chord_map, slot_map, slot_model};
use crate::text::{decimal, digit_char, joined, padded_left, repeated};
use vstd::prelude::*;
use vstd::utf8::encode_utf8;

verus! {

/// Whether a character means itself in a CSV record: it is no quote, no comma and
/// ends no line.
pub open spec fn is_plain_char(c: char) -> bool {
    c != '"' && c != ',' && c != '\n' && c != '\r'
}

/// Whether a text stands in a CSV record as it is.
pub open spec fn is_plain(t: Seq<char>) -> bool {
    forall|i: int| 0 <= i < t.len() ==> is_plain_char(#[trigger] t[i])
}

/// Whether a record of several fields is their texts between commas.
pub open spec fn is_plain_record(fields: Seq<Seq<char>>) -> bool {
    &&& fields.len() >= 2
    &&& forall|i: int| 0 <= i < fields.len() ==> is_plain(#[trigger] fields[i])
}

/// The line of a plain record: its fields between commas, ended by a line feed.
pub open spec fn plain_line(fields: Seq<Seq<char>>) -> Seq<char> {
    joined(fields, ","@) + "\n"@
}

/// Texts are encoded one after the other.
pub proof fn lemma_encoded_in_parts(a: Seq<char>, b: Seq<char>)
    ensures
        encode_utf8(a + b) == encode_utf8(a) + encode_utf8(b),
    decreases a.len(),
{
    if a.len() == 0 {
        assert(a + b =~= b);
        assert(encode_utf8(a) =~= Seq::<u8>::empty());
        assert(encode_utf8(a) + encode_utf8(b) =~= encode_utf8(b));
    } else {
        lemma_encoded_in_parts(a.drop_first(), b);
        assert((a + b).drop_first() =~= a.drop_first() + b);
        assert(encode_utf8(a + b) =~= encode_utf8(a) + encode_utf8(b));
    }
}

/// Plain texts make a plain text.
proof fn lemma_plain_parts(a: Seq<char>, b: Seq<char>)
    requires
        is_plain(a),
        is_plain(b),
    ensures
        is_plain(a + b),
{
}

/// A number in decimal is plain.
proof fn lemma_decimal_is_plain(n: nat)
    ensures
        is_plain(decimal(n)),
    decreases n,
{
    assert(is_plain_char(digit_char(n % 10)));
    if n >= 10 {
        lemma_decimal_is_plain(n / 10);
    }
}

/// A number with a fixed number of digits is plain.
proof fn lemma_fixed_is_plain(v: Value, places: nat)
    ensures
        is_plain(fixed_text(v, places)),
{
    let steps = decimal_steps(v, places);
    let ten = ten_to(places);
    let rest = decimal(steps % ten);
    reveal_strlit(".");
    lemma_decimal_is_plain(steps / ten);
    lemma_decimal_is_plain(steps % ten);
    assert(is_plain(repeated('0', (places - rest.len()) as nat)));
    assert(is_plain(padded_left(rest, places, '0')));
}

/// A shown number is plain.
proof fn lemma_shown_is_plain(x: Binary64, places: nat)
    ensures
        is_plain(shown(x, places)),
{
    lemma_fixed_is_plain(x.value(), places);
    reveal_strlit("NaN");
    reveal_strlit("inf");
    reveal_strlit("-inf");
    reveal_strlit("-");
}

/// A note's name is plain.
proof fn lemma_note_is_plain(midi: nat)
    ensures
        is_plain(note_name(midi)),
{
    reveal_strlit("C");
    reveal_strlit("C#");
    reveal_strlit("D");
    reveal_strlit("D#");
    reveal_strlit("E");
    reveal_strlit("F");
    reveal_strlit("F#");
    reveal_strlit("G");
    reveal_strlit("G#");
    reveal_strlit("A");
    reveal_strlit("A#");
    reveal_strlit("B");
    reveal_strlit("-1");
    assert(is_plain(pitch_class(midi)));
    if midi >= 12 {
        lemma_decimal_is_plain((midi / 12 - 1) as nat);
    }
    assert(is_plain(octave_text(midi)));
}

/// A chord's tag is plain.
proof fn lemma_tag_is_plain(q: ChordQuality)
    ensures
        is_plain(q.tag()),
{
    reveal_strlit("maj");
    reveal_strlit("min");
    reveal_strlit("dim");
    reveal_strlit("aug");
    reveal_strlit("maj7");
    reveal_strlit("min7");
    reveal_strlit("dom7");
    reveal_strlit("sus2");
    reveal_strlit("sus4");
    reveal_strlit("5");
}

/// Plain texts with a plain separator make a plain text.
proof fn lemma_joined_is_plain(parts: Seq<Seq<char>>, sep: Seq<char>)
    requires
        is_plain(sep),
        forall|i: int| 0 <= i < parts.len() ==> is_plain(#[trigger] parts[i]),
    ensures
        is_plain(joined(parts, sep)),
    decreases parts.len(),
{
    if parts.len() > 1 {
        let front = parts.drop_last();
        assert forall|i: int| 0 <= i < front.len() implies is_plain(#[trigger] front[i]) by {
            assert(front[i] == parts[i]);
        }
        lemma_joined_is_plain(front, sep);
        assert(is_plain(parts[parts.len() - 1]));
    }
}

/// The header of a map is plain.
pub proof fn lemma_header_is_plain()
    ensures
        is_plain_record(csv_header_fields()),
{
    reveal_strlit("slot");
    reveal_strlit("midi_note");
    reveal_strlit("m8_note");
    reveal_strlit("chord");
    reveal_strlit("notes");
    reveal_strlit("start_seconds");
    reveal_strlit("end_seconds");
    reveal_strlit("velocity");
    reveal_strlit("status");
}

/// The rows of the slots of a chain are plain: a map of them is the fields of each
/// row between commas, one row to a line.
pub proof fn lemma_slot_row_is_plain(
    i: nat,
    midi: u8,
    chord: Option<ChordQuality>,
    length: Binary64,
    velocity: u8,
    status: Seq<char>,
)
    requires
        is_plain(status),
    ensures
        is_plain_record(csv_row_fields(slot_model(i, midi, chord, length), velocity, status)),
{
    let slot = slot_model(i, midi, chord, length);
    let names = note_names(slot.notes);
    reveal_strlit(" ");
    lemma_decimal_is_plain(slot.slot as nat);
    lemma_decimal_is_plain(midi as nat);
    lemma_decimal_is_plain(velocity as nat);
    lemma_note_is_plain(midi as nat);
    match chord {
        Some(q) => {
            lemma_tag_is_plain(q);
            lemma_plain_parts(note_name(midi as nat), " "@);
            lemma_plain_parts(note_name(midi as nat) + " "@, q.tag());
        },
        None => {},
    }
    assert(is_plain(slot.label));
    assert forall|k: int| 0 <= k < names.len() implies is_plain(#[trigger] names[k]) by {
        lemma_note_is_plain(slot.notes[k] as nat);
    }
    lemma_joined_is_plain(names, " "@);
    lemma_shown_is_plain(slot.start, 3);
    lemma_shown_is_plain(slot.end, 3);
}

/// The statuses of slots are plain.
pub proof fn lemma_statuses_are_plain()
    ensures
        is_plain("rendered"@),
        is_plain("silent"@),
        is_plain("skipped"@),
{
    reveal_strlit("rendered");
    reveal_strlit("silent");
    reveal_strlit("skipped");
}

/// The map of a chain of notes, or of one chord on every note, is plain.
pub proof fn lemma_note_map_is_plain(
    start_midi: u8,
    end_midi: u8,
    length: Binary64,
    chord: Option<ChordQuality>,
    velocity: u8,
    statuses: Seq<Seq<char>>,
    n: nat,
)
    requires
        n <= slot_map(start_midi, end_midi, length, chord).len(),
        n <= statuses.len(),
        forall|i: int| 0 <= i < n ==> is_plain(#[trigger] statuses[i]),
    ensures
        plain_rows(slot_map(start_midi, end_midi, length, chord), velocity, statuses, n),
{
    let slots = slot_map(start_midi, end_midi, length, chord);
    assert forall|i: int| 0 <= i < n implies is_plain_record(
        csv_row_fields(#[trigger] slots[i], velocity, statuses[i]),
    ) by {
        lemma_slot_row_is_plain(
            i as nat,
            (start_midi + i) as u8,
            chord,
            length,
            velocity,
            statuses[i],
        );
    }
}

/// The map of packed chords is plain.
pub proof fn lemma_chord_map_is_plain(
    roots: Seq<u8>,
    qualities: Seq<ChordQuality>,
    length: Binary64,
    velocity: u8,
    statuses: Seq<Seq<char>>,
    n: nat,
)
    requires
        n <= chord_map(roots, qualities, length).len(),
        n <= statuses.len(),
        forall|i: int| 0 <= i < n ==> is_plain(#[trigger] statuses[i]),
    ensures
        plain_rows(chord_map(roots, qualities, length), velocity, statuses, n),
{
    let slots = chord_map(roots, qualities, length);
    assert forall|i: int| 0 <= i < n implies is_plain_record(
        csv_row_fields(#[trigger] slots[i], velocity, statuses[i]),
    ) by {
        lemma_slot_row_is_plain(
            i as nat,
            roots[i % roots.len() as int],
            Some(qualities[i / roots.len() as int]),
            length,
            velocity,
            statuses[i],
        );
    }
}

} // verus!
