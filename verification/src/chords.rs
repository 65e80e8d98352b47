//! Chord qualities: their intervals, their notes on a root and their labels.
use crate::notes::{midi_to_m8_note, note_name};
use vstd::prelude::*;

verus! {

/// A built-in chord quality, defined by its semitone intervals from the root.
#[derive(Copy, Clone, Debug, PartialEq, Eq, Structural)]
pub enum ChordQuality {
    /// Major triad.
    Maj,
    /// Minor triad.
    Min,
    /// Diminished triad.
    Dim,
    /// Augmented triad.
    Aug,
    /// Major seventh.
    Maj7,
    /// Minor seventh.
    Min7,
    /// Dominant seventh.
    Dom7,
    /// Suspended second.
    Sus2,
    /// Suspended fourth.
    Sus4,
    /// Power chord (root + fifth).
    Power,
}

impl ChordQuality {
    /// Every quality, in the order in which they are listed and packed.
    pub const ALL: [ChordQuality; 10] = [
        ChordQuality::Maj,
        ChordQuality::Min,
        ChordQuality::Dim,
        ChordQuality::Aug,
        ChordQuality::Maj7,
        ChordQuality::Min7,
        ChordQuality::Dom7,
        ChordQuality::Sus2,
        ChordQuality::Sus4,
        ChordQuality::Power,
    ];

    /// The semitone offsets of the chord's tones.
    pub open spec fn offsets(self) -> Seq<i8> {
        match self {
            ChordQuality::Maj => seq![0, 4, 7],
            ChordQuality::Min => seq![0, 3, 7],
            ChordQuality::Dim => seq![0, 3, 6],
            ChordQuality::Aug => seq![0, 4, 8],
            ChordQuality::Maj7 => seq![0, 4, 7, 11],
            ChordQuality::Min7 => seq![0, 3, 7, 10],
            ChordQuality::Dom7 => seq![0, 4, 7, 10],
            ChordQuality::Sus2 => seq![0, 2, 7],
            ChordQuality::Sus4 => seq![0, 5, 7],
            ChordQuality::Power => seq![0, 7],
        }
    }

    /// The tag of the quality.
    pub open spec fn tag(self) -> Seq<char> {
        match self {
            ChordQuality::Maj => "maj"@,
            ChordQuality::Min => "min"@,
            ChordQuality::Dim => "dim"@,
            ChordQuality::Aug => "aug"@,
            ChordQuality::Maj7 => "maj7"@,
            ChordQuality::Min7 => "min7"@,
            ChordQuality::Dom7 => "dom7"@,
            ChordQuality::Sus2 => "sus2"@,
            ChordQuality::Sus4 => "sus4"@,
            ChordQuality::Power => "5"@,
        }
    }

    /// Semitone offsets from the root that make up the chord.
    pub fn intervals(self) -> (r: &'static [i8])
        ensures
            r@ == self.offsets(),
    {
        match self {
            ChordQuality::Maj => &[0, 4, 7],
            ChordQuality::Min => &[0, 3, 7],
            ChordQuality::Dim => &[0, 3, 6],
            ChordQuality::Aug => &[0, 4, 8],
            ChordQuality::Maj7 => &[0, 4, 7, 11],
            ChordQuality::Min7 => &[0, 3, 7, 10],
            ChordQuality::Dom7 => &[0, 4, 7, 10],
            ChordQuality::Sus2 => &[0, 2, 7],
            ChordQuality::Sus4 => &[0, 5, 7],
            ChordQuality::Power => &[0, 7],
        }
    }

    /// Short tag used in filenames and labels (e.g. `maj`, `5`).
    pub fn short(self) -> (r: &'static str)
        ensures
            r@ == self.tag(),
    {
        match self {
            ChordQuality::Maj => "maj",
            ChordQuality::Min => "min",
            ChordQuality::Dim => "dim",
            ChordQuality::Aug => "aug",
            ChordQuality::Maj7 => "maj7",
            ChordQuality::Min7 => "min7",
            ChordQuality::Dom7 => "dom7",
            ChordQuality::Sus2 => "sus2",
            ChordQuality::Sus4 => "sus4",
            ChordQuality::Power => "5",
        }
    }
}

/// The tones of a chord on `root`, from a list of offsets: those up to MIDI 127.
pub open spec fn tones(root: u8, offsets: Seq<i8>) -> Seq<u8>
    decreases offsets.len(),
{
    if offsets.len() == 0 {
        Seq::empty()
    } else {
        let before = tones(root, offsets.drop_last());
        let n = root + offsets.last();
        if 0 <= n <= 127 {
            before.push(n as u8)
        } else {
            before
        }
    }
}

/// The MIDI notes that sound for `quality` rooted at `root`, dropping any tone
/// above MIDI 127. The root, where it is a MIDI note, is always included, so the
/// result is then never empty.
pub fn chord_notes(root: u8, quality: ChordQuality) -> (r: Vec<u8>)
    ensures
        r@ == tones(root, quality.offsets()),
        root <= 127 ==> r.len() > 0 && r[0] == root,
        forall|i: int| 0 <= i < r.len() ==> root <= #[trigger] r[i] && r[i] <= 127,
        r.len() <= 4,
{
    let offsets: &[i8] = quality.intervals();
    let mut notes: Vec<u8> = Vec::new();
    let mut i: usize = 0;
    while i < offsets.len()
        invariant
            i <= offsets.len(),
            offsets@ == quality.offsets(),
            notes@ == tones(root, offsets@.take(i as int)),
            root <= 127 && i > 0 ==> notes.len() > 0 && notes[0] == root,
            forall|k: int| 0 <= k < notes.len() ==> root <= #[trigger] notes[k] && notes[k] <= 127,
            notes.len() <= i,
        decreases offsets.len() - i,
    {
        proof {
            assert(offsets@.take(i + 1).drop_last() =~= offsets@.take(i as int));
            assert(offsets@.take(i + 1).last() == offsets[i as int]);
            assert(offsets[i as int] >= 0);
        }
        let n: i16 = root as i16 + offsets[i] as i16;
        if n <= 127 {
            notes.push(n as u8);
        }
        i += 1;
    }
    assert(offsets@.take(i as int) =~= offsets@);
    notes
}

/// The label of a chord: its root's name, a blank and its tag.
pub open spec fn label_text(root: nat, quality: ChordQuality) -> Seq<char> {
    note_name(root) + " "@ + quality.tag()
}

/// Human-readable chord label, e.g. `C4 maj`.
pub fn chord_label(root: u8, quality: ChordQuality) -> (r: String)
    ensures
        r@ == label_text(root as nat, quality),
{
    let mut s = midi_to_m8_note(root);
    s.append(" ");
    s.append(quality.short());
    s
}

} // verus!
