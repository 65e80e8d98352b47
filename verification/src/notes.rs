//! MIDI notes under the names that the M8 shows.
//!
//! The M8 shows `C-1` for MIDI 0, `C0` for MIDI 12, `C4` for MIDI 60 and `G9`
//! for MIDI 127.
use crate::text::{decimal, decimal_text, is_digit, lemma_decimal_digits, lemma_decimal_is_unique};
use vstd::prelude::*;

verus! {

/// The pitch-class name of a MIDI note, by `midi % 12`.
pub open spec fn pitch_class(midi: nat) -> Seq<char> {
    let k = midi % 12;
    if k == 0 { "C"@ }
    else if k == 1 { "C#"@ }
    else if k == 2 { "D"@ }
    else if k == 3 { "D#"@ }
    else if k == 4 { "E"@ }
    else if k == 5 { "F"@ }
    else if k == 6 { "F#"@ }
    else if k == 7 { "G"@ }
    else if k == 8 { "G#"@ }
    else if k == 9 { "A"@ }
    else if k == 10 { "A#"@ }
    else { "B"@ }
}

/// The octave number that the M8 shows: MIDI 0 to 11 are octave -1.
pub open spec fn octave_text(midi: nat) -> Seq<char> {
    if midi < 12 {
        "-1"@
    } else {
        decimal((midi / 12 - 1) as nat)
    }
}

/// The M8 name of a MIDI note: pitch class, then octave.
pub open spec fn note_name(midi: nat) -> Seq<char> {
    pitch_class(midi) + octave_text(midi)
}

/// Convert a MIDI note number to its M8 note name.
pub fn midi_to_m8_note(midi: u8) -> (r: String)
    ensures
        r@ == note_name(midi as nat),
{
    let k: u8 = midi % 12;
    let name: &str = match k {
        0 => "C",
        1 => "C#",
        2 => "D",
        3 => "D#",
        4 => "E",
        5 => "F",
        6 => "F#",
        7 => "G",
        8 => "G#",
        9 => "A",
        10 => "A#",
        _ => "B",
    };
    let mut s = name.to_string();
    if midi < 12 {
        s.append("-1");
    } else {
        let octave = decimal_text((midi / 12 - 1) as u64);
        s.append(octave.as_str());
    }
    s
}

/// The characters of the pitch-class names.
proof fn lemma_pitch_class(midi: nat)
    ensures
        1 <= pitch_class(midi).len() <= 2,
        pitch_class(midi).len() == 2 ==> pitch_class(midi)[1] == '#',
        pitch_class(midi)[0] == (if midi % 12 <= 1 {
            'C'
        } else if midi % 12 <= 3 {
            'D'
        } else if midi % 12 == 4 {
            'E'
        } else if midi % 12 <= 6 {
            'F'
        } else if midi % 12 <= 8 {
            'G'
        } else if midi % 12 <= 10 {
            'A'
        } else {
            'B'
        }),
        pitch_class(midi).len() == 2 <==> (midi % 12 == 1 || midi % 12 == 3 || midi % 12 == 6 || midi
            % 12 == 8 || midi % 12 == 10),
{
    reveal_strlit("C");
    reveal_strlit("C#");
    reveal_strlit("D");
    reveal_strlit("D#");
    reveal_strlit("E");
    reveal_strlit("F");
    reveal_strlit("F#");
    reveal_strlit("G");
    reveal_strlit("G#");
    reveal_strlit("A");
    reveal_strlit("A#");
    reveal_strlit("B");
}

/// An octave's text starts with no sharp sign, and only octaves below zero have a
/// minus.
proof fn lemma_octave_text(midi: nat)
    ensures
        octave_text(midi).len() > 0,
        octave_text(midi)[0] != '#',
        octave_text(midi)[0] == '-' <==> midi < 12,
{
    reveal_strlit("-1");
    if midi >= 12 {
        lemma_decimal_digits((midi / 12 - 1) as nat);
        assert(is_digit(decimal((midi / 12 - 1) as nat)[0]));
    }
}

/// No two notes share a name.
pub proof fn lemma_note_names_are_unique(a: nat, b: nat)
    requires
        note_name(a) == note_name(b),
    ensures
        a == b,
{
    lemma_pitch_class(a);
    lemma_pitch_class(b);
    lemma_octave_text(a);
    lemma_octave_text(b);
    let x = note_name(a);
    let y = note_name(b);
    let p = pitch_class(a);
    let q = pitch_class(b);
    assert(x[0] == p[0] && y[0] == q[0]);
    if p.len() != q.len() {
        if p.len() == 1 {
            assert(x[1] == octave_text(a)[0] && y[1] == q[1]);
        } else {
            assert(y[1] == octave_text(b)[0] && x[1] == p[1]);
        }
    }
    assert(a % 12 == b % 12);
    assert(octave_text(a) =~= x.skip(p.len() as int));
    assert(octave_text(b) =~= y.skip(q.len() as int));
    if a >= 12 && b >= 12 {
        lemma_decimal_is_unique((a / 12 - 1) as nat, (b / 12 - 1) as nat);
    }
}

} // verus!
