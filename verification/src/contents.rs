//! What the slots of a file hold: which notes sound in which slot, what it is called
//! and where it lies.
use crate::arith::{plus, times_whole};
use crate::chord_files::{
    chord_file_models, octave_files, octave_prefix, packed_files, quality_tags, ChordFileModel,
};
use crate::chords::{tones, ChordQuality};
use crate::layout::{
    all_roots, chunked, lemma_chunks_keep_qualities, lemma_octaves_keep_roots,
    octaves, qualities_per_file,
};
use crate::notes::note_name;
use crate::number::Binary64;
use crate::slots::{chord_map, lemma_chords_lie_by_quality, slot_map, SlotModel};
use crate::text::joined;
use vstd::prelude::*;

verus! {

/// Whether a tone lies so many semitones above the root in a chord of a quality.
pub open spec fn is_interval(q: ChordQuality, d: int) -> bool {
    match q {
        ChordQuality::Maj => d == 0 || d == 4 || d == 7,
        ChordQuality::Min => d == 0 || d == 3 || d == 7,
        ChordQuality::Dim => d == 0 || d == 3 || d == 6,
        ChordQuality::Aug => d == 0 || d == 4 || d == 8,
        ChordQuality::Maj7 => d == 0 || d == 4 || d == 7 || d == 11,
        ChordQuality::Min7 => d == 0 || d == 3 || d == 7 || d == 10,
        ChordQuality::Dom7 => d == 0 || d == 4 || d == 7 || d == 10,
        ChordQuality::Sus2 => d == 0 || d == 2 || d == 7,
        ChordQuality::Sus4 => d == 0 || d == 5 || d == 7,
        ChordQuality::Power => d == 0 || d == 7,
    }
}

/// Whether notes are exactly the tones of a chord up to MIDI 127, from low to high.
pub open spec fn is_chord(notes: Seq<u8>, root: u8, q: ChordQuality) -> bool {
    &&& forall|n: u8| #[trigger] notes.contains(n) <==> n <= 127 && is_interval(q, n - root)
    &&& forall|a: int, b: int| 0 <= a < b < notes.len() ==> notes[a] < notes[b]
}

/// Whether a slot lies at position `i` of a chain of slots of one length: its index
/// says so, it starts that many lengths in and lasts one.
pub open spec fn lies_at(s: SlotModel, i: int, length: Binary64) -> bool {
    &&& s.slot == i % 256
    &&& s.start == times_whole(length, i as nat)
    &&& s.end == plus(s.start, length)
}

/// Whether a slot holds one note alone.
pub open spec fn holds_note(s: SlotModel, midi: int) -> bool {
    &&& s.midi == midi
    &&& s.notes == seq![s.midi]
    &&& s.m8_note == note_name(midi as nat)
    &&& s.label == note_name(midi as nat)
}

/// Whether a slot holds a chord: its tones, and a label of the root's name and the
/// quality.
pub open spec fn holds_chord(s: SlotModel, root: int, q: ChordQuality) -> bool {
    &&& s.midi == root
    &&& is_chord(s.notes, s.midi, q)
    &&& s.m8_note == note_name(root as nat)
    &&& s.label == note_name(root as nat) + " "@ + q.tag()
}

/// Whether slots hold the notes of a range, one in each.
pub open spec fn are_notes(slots: Seq<SlotModel>, first: u8, last: u8, length: Binary64) -> bool {
    &&& slots.len() == (if first <= last {
        last - first + 1
    } else {
        0
    })
    &&& forall|i: int|
        0 <= i < slots.len() ==> holds_note(#[trigger] slots[i], first + i) && lies_at(
            slots[i],
            i,
            length,
        )
}

/// Whether slots hold chords of one quality, one on each note of a range.
pub open spec fn are_chords(
    slots: Seq<SlotModel>,
    first: u8,
    last: u8,
    q: ChordQuality,
    length: Binary64,
) -> bool {
    &&& slots.len() == (if first <= last {
        last - first + 1
    } else {
        0
    })
    &&& forall|i: int|
        0 <= i < slots.len() ==> holds_chord(#[trigger] slots[i], first + i, q) && lies_at(
            slots[i],
            i,
            length,
        )
}

/// Whether a slot holds a chord of one of some qualities on one of some roots.
pub open spec fn holds_one_of(s: SlotModel, roots: Seq<u8>, qualities: Seq<ChordQuality>) -> bool {
    exists|r: u8, q: ChordQuality|
        #![trigger roots.contains(r), qualities.contains(q)]
        roots.contains(r) && qualities.contains(q) && holds_chord(s, r as int, q)
}

/// Whether one of some slots holds a chord.
pub open spec fn have_chord(slots: Seq<SlotModel>, r: u8, q: ChordQuality) -> bool {
    exists|i: int| 0 <= i < slots.len() && holds_chord(#[trigger] slots[i], r as int, q)
}

/// Offsets that rise from zero on.
spec fn are_rising(offsets: Seq<i8>) -> bool {
    &&& forall|i: int| 0 <= i < offsets.len() ==> #[trigger] offsets[i] >= 0
    &&& forall|i: int, j: int| 0 <= i < j < offsets.len() ==> offsets[i] < offsets[j]
}

/// The tones of rising offsets are those up to MIDI 127, from low to high.
proof fn lemma_tones(root: u8, offsets: Seq<i8>)
    requires
        are_rising(offsets),
    ensures
        ({
            let notes = tones(root, offsets);
            &&& forall|n: u8| #[trigger] notes.contains(n) <==> n <= 127 && exists|i: int|
                0 <= i < offsets.len() && n - root == #[trigger] offsets[i]
            &&& forall|a: int, b: int| 0 <= a < b < notes.len() ==> notes[a] < notes[b]
        }),
    decreases offsets.len(),
{
    let notes = tones(root, offsets);
    if offsets.len() > 0 {
        let front = offsets.drop_last();
        let before = tones(root, front);
        let last = offsets.last();
        assert forall|i: int| 0 <= i < front.len() implies #[trigger] front[i] >= 0 && front[i] < last by {
            assert(front[i] == offsets[i]);
        }
        assert forall|i: int, j: int| 0 <= i < j < front.len() implies front[i] < front[j] by {
            assert(offsets[i] < offsets[j]);
        }
        lemma_tones(root, front);
        assert(offsets[offsets.len() - 1] >= 0);
        assert forall|n: u8| #[trigger] notes.contains(n) <==> n <= 127 && exists|i: int|
            0 <= i < offsets.len() && n - root == #[trigger] offsets[i] by {
            if notes.contains(n) {
                let a = choose|a: int| 0 <= a < notes.len() && notes[a] == n;
                if a < before.len() {
                    assert(before[a] == n);
                    assert(before.contains(n));
                    let i = choose|i: int| 0 <= i < front.len() && n - root == #[trigger] front[i];
                    assert(n - root == offsets[i]);
                } else {
                    assert(n - root == offsets[offsets.len() - 1]);
                }
            }
            if n <= 127 && exists|i: int| 0 <= i < offsets.len() && n - root == #[trigger] offsets[i] {
                let i = choose|i: int| 0 <= i < offsets.len() && n - root == #[trigger] offsets[i];
                if i < front.len() {
                    assert(n - root == front[i]);
                    assert(before.contains(n));
                    let a = choose|a: int| 0 <= a < before.len() && before[a] == n;
                    assert(notes[a] == n);
                } else {
                    assert(notes[notes.len() - 1] == n);
                }
            }
        }
        assert forall|a: int, b: int| 0 <= a < b < notes.len() implies notes[a] < notes[b] by {
            assert(notes[a] == before[a]);
            if b < before.len() {
                assert(notes[b] == before[b]);
            } else {
                assert(before.contains(before[a]));
                let i = choose|i: int| 0 <= i < front.len() && before[a] - root == #[trigger] front[i];
                assert(front[i] < last);
            }
        }
    }
}

/// The notes of a chord are the root and every interval of its quality above it, up
/// to MIDI 127.
pub proof fn lemma_chord_is_its_intervals(root: u8, q: ChordQuality)
    ensures
        is_chord(tones(root, q.offsets()), root, q),
{
    let offsets = q.offsets();
    lemma_tones(root, offsets);
    let notes = tones(root, offsets);
    assert forall|n: u8| #[trigger] notes.contains(n) <==> n <= 127 && is_interval(q, n - root) by {
        if n <= 127 && is_interval(q, n - root) {
            let d = n - root;
            assert(d == offsets[0] || d == offsets[1] || d == offsets[2] || d == offsets[3]);
        }
    }
}

/// A chain of single notes holds each note of its range in order.
pub proof fn lemma_note_chain(first: u8, last: u8, length: Binary64)
    ensures
        are_notes(slot_map(first, last, length, None), first, last, length),
{
    let slots = slot_map(first, last, length, None);
    assert forall|i: int| 0 <= i < slots.len() implies holds_note(#[trigger] slots[i], first + i)
        && lies_at(slots[i], i, length) by {
        assert(slots[i].notes =~= seq![slots[i].midi]);
    }
}

/// A chain of chords of one quality holds the chord on each note of its range.
pub proof fn lemma_chord_chain(first: u8, last: u8, q: ChordQuality, length: Binary64)
    ensures
        are_chords(slot_map(first, last, length, Some(q)), first, last, q, length),
{
    let slots = slot_map(first, last, length, Some(q));
    assert forall|i: int| 0 <= i < slots.len() implies holds_chord(#[trigger] slots[i], first + i, q)
        && lies_at(slots[i], i, length) by {
        lemma_chord_is_its_intervals((first + i) as u8, q);
    }
}

/// A packed chain holds exactly the chords of its qualities on its roots: every slot
/// one of them, and each of them in a slot.
pub proof fn lemma_packed_chain(roots: Seq<u8>, qualities: Seq<ChordQuality>, length: Binary64)
    ensures
        ({
            let slots = chord_map(roots, qualities, length);
            &&& slots.len() == roots.len() * qualities.len()
            &&& forall|i: int|
                0 <= i < slots.len() ==> holds_one_of(#[trigger] slots[i], roots, qualities)
                    && lies_at(slots[i], i, length)
            &&& forall|r: u8, q: ChordQuality|
                #![trigger roots.contains(r), qualities.contains(q)]
                roots.contains(r) && qualities.contains(q) ==> have_chord(slots, r, q)
        }),
{
    let slots = chord_map(roots, qualities, length);
    let n = roots.len() as int;
    assert forall|i: int| 0 <= i < slots.len() implies holds_one_of(#[trigger] slots[i], roots, qualities)
        && lies_at(slots[i], i, length) by {
        let (k, c) = (i % n, i / n);
        assert(n > 0) by (nonlinear_arith)
            requires
                0 <= i < n * qualities.len(),
                n >= 0,
        ;
        assert(0 <= k < n && 0 <= c < qualities.len()) by (nonlinear_arith)
            requires
                0 <= i < n * qualities.len(),
                n > 0,
                k == i % n,
                c == i / n,
        ;
        lemma_chord_is_its_intervals(roots[k], qualities[c]);
        assert(roots.contains(roots[k]) && qualities.contains(qualities[c]));
        assert(holds_chord(slots[i], roots[k] as int, qualities[c]));
    }
    assert forall|r: u8, q: ChordQuality|
        #![trigger roots.contains(r), qualities.contains(q)]
        roots.contains(r) && qualities.contains(q) implies have_chord(slots, r, q) by {
        let k = choose|k: int| 0 <= k < roots.len() && roots[k] == r;
        let c = choose|c: int| 0 <= c < qualities.len() && qualities[c] == q;
        lemma_chords_lie_by_quality(roots, qualities, length, c, k);
        lemma_chord_is_its_intervals(r, q);
        assert(c * n + k >= 0) by (nonlinear_arith)
            requires
                c >= 0,
                n >= 0,
                k >= 0,
        ;
        assert(holds_chord(slots[c * n + k], r as int, q));
    }
}

/// Whether a file keeps to some roots and some qualities.
pub open spec fn keeps_to(f: ChordFileModel, roots: Seq<u8>, qualities: Seq<ChordQuality>) -> bool {
    &&& forall|r: u8| #[trigger] f.roots.contains(r) ==> roots.contains(r)
    &&& forall|q: ChordQuality| #[trigger] f.qualities.contains(q) ==> qualities.contains(q)
}

/// Whether one of some files has a quality on a root.
pub open spec fn have_file_of(files: Seq<ChordFileModel>, r: u8, q: ChordQuality) -> bool {
    exists|k: int|
        0 <= k < files.len() && (#[trigger] files[k]).roots.contains(r) && files[k].qualities.contains(
            q,
        )
}

/// Cutting a list of qualities into runs keeps each quality in a run, and adds none.
proof fn lemma_chunks_hold(qualities: Seq<ChordQuality>, per: nat)
    requires
        per >= 1,
    ensures
        forall|q: ChordQuality| #[trigger]
            qualities.contains(q) ==> exists|c: int|
                0 <= c < chunked(qualities, per).len() && (#[trigger] chunked(qualities, per)[c]).contains(
                    q,
                ),
        forall|c: int, q: ChordQuality|
            0 <= c < chunked(qualities, per).len() && #[trigger] chunked(qualities, per)[c].contains(q)
                ==> qualities.contains(q),
    decreases qualities.len(),
{
    let chunks = chunked(qualities, per);
    if qualities.len() > per {
        let head = qualities.take(per as int);
        let rest = qualities.skip(per as int);
        let more = chunked(rest, per);
        lemma_chunks_hold(rest, per);
        assert forall|q: ChordQuality| #[trigger] qualities.contains(q) implies exists|c: int|
            0 <= c < chunks.len() && (#[trigger] chunks[c]).contains(q) by {
            let i = choose|i: int| 0 <= i < qualities.len() && qualities[i] == q;
            if i < per {
                assert(head[i] == q);
                assert(chunks[0].contains(q));
            } else {
                assert(rest[i - per] == q);
                assert(rest.contains(q));
                let c = choose|c: int| 0 <= c < more.len() && (#[trigger] more[c]).contains(q);
                assert(chunks[c + 1] == more[c]);
            }
        }
        assert forall|c: int, q: ChordQuality|
            0 <= c < chunks.len() && #[trigger] chunks[c].contains(q) implies qualities.contains(q) by {
            if c == 0 {
                let i = choose|i: int| 0 <= i < head.len() && head[i] == q;
                assert(qualities[i] == q);
            } else {
                assert(chunks[c] == more[c - 1]);
                assert(more[c - 1].contains(q));
                let i = choose|i: int| 0 <= i < rest.len() && rest[i] == q;
                assert(qualities[i + per] == q);
            }
        }
    } else if qualities.len() > 0 {
        assert(chunks[0] == qualities);
    }
}

/// The files of some roots have every quality on every root, and nothing else.
proof fn lemma_packed_files_hold(
    roots: Seq<u8>,
    qualities: Seq<ChordQuality>,
    max_slices: nat,
    file_per_chord: bool,
    prefix: Seq<char>,
)
    ensures
        ({
            let files = packed_files(roots, qualities, max_slices, file_per_chord, prefix);
            &&& forall|k: int|
                0 <= k < files.len() ==> keeps_to(#[trigger] files[k], roots, qualities)
                    && files[k].roots == roots && files[k].qualities.len() >= 1
            &&& file_per_chord ==> forall|k: int|
                0 <= k < files.len() ==> (#[trigger] files[k]).qualities.len() == 1
            &&& forall|r: u8, q: ChordQuality|
                #![trigger roots.contains(r), qualities.contains(q)]
                roots.contains(r) && qualities.contains(q) ==> have_file_of(files, r, q)
        }),
{
    let per = qualities_per_file(roots.len(), max_slices, file_per_chord);
    let chunks = chunked(qualities, per);
    let files = packed_files(roots, qualities, max_slices, file_per_chord, prefix);
    lemma_chunks_hold(qualities, per);
    lemma_chunks_keep_qualities(qualities, per);
    assert forall|k: int| 0 <= k < files.len() implies keeps_to(#[trigger] files[k], roots, qualities)
        && files[k].roots == roots && files[k].qualities.len() >= 1 by {
        assert(files[k].qualities == chunks[k]);
        assert(chunks[k].len() >= 1);
        assert forall|q: ChordQuality| #[trigger] files[k].qualities.contains(q) implies qualities.contains(
            q,
        ) by {
            assert(chunks[k].contains(q));
        }
    }
    if file_per_chord {
        assert forall|k: int| 0 <= k < files.len() implies (#[trigger] files[k]).qualities.len() == 1 by {
            assert(files[k].qualities == chunks[k]);
            assert(1 <= chunks[k].len() <= per);
        }
    }
    assert forall|r: u8, q: ChordQuality|
        #![trigger roots.contains(r), qualities.contains(q)]
        roots.contains(r) && qualities.contains(q) implies have_file_of(files, r, q) by {
        let c = choose|c: int| 0 <= c < chunks.len() && (#[trigger] chunks[c]).contains(q);
        assert(files[c].roots.contains(r) && files[c].qualities.contains(q));
    }
}

/// Grouping roots by octave keeps each root in a group, and adds none.
proof fn lemma_groups_hold(groups: Seq<(u8, Seq<u8>)>, r: u8)
    ensures
        all_roots(groups).contains(r) <==> exists|g: int|
            0 <= g < groups.len() && (#[trigger] groups[g]).1.contains(r),
    decreases groups.len(),
{
    if groups.len() > 0 {
        let front = groups.drop_last();
        let last = groups.last();
        let before = all_roots(front);
        let all = all_roots(groups);
        lemma_groups_hold(front, r);
        if all.contains(r) {
            let i = choose|i: int| 0 <= i < all.len() && all[i] == r;
            if i < before.len() {
                assert(before[i] == r);
                let g = choose|g: int| 0 <= g < front.len() && (#[trigger] front[g]).1.contains(r);
                assert(groups[g].1.contains(r));
            } else {
                assert(last.1[i - before.len()] == r);
                assert(groups[groups.len() - 1].1.contains(r));
            }
        }
        if exists|g: int| 0 <= g < groups.len() && (#[trigger] groups[g]).1.contains(r) {
            let g = choose|g: int| 0 <= g < groups.len() && (#[trigger] groups[g]).1.contains(r);
            if g < front.len() {
                assert(front[g].1.contains(r));
                let i = choose|i: int| 0 <= i < before.len() && before[i] == r;
                assert(all[i] == r);
            } else {
                let i = choose|i: int| 0 <= i < last.1.len() && last.1[i] == r;
                assert(all[before.len() + i] == r);
            }
        }
    }
}

/// Whether all roots of a file lie in one octave.
pub open spec fn is_in_one_octave(roots: Seq<u8>) -> bool {
    forall|i: int, j: int|
        0 <= i < roots.len() && 0 <= j < roots.len() ==> #[trigger] roots[i] / 12 == #[trigger] roots[j]
            / 12
}

/// The files of some octaves have every quality on every root of each, and nothing
/// else.
proof fn lemma_octave_files_hold(
    groups: Seq<(u8, Seq<u8>)>,
    qualities: Seq<ChordQuality>,
    max_slices: nat,
)
    ensures
        ({
            let files = octave_files(groups, qualities, max_slices);
            &&& forall|k: int|
                0 <= k < files.len() ==> (#[trigger] files[k]).qualities.len() >= 1 && exists|g: int|
                    0 <= g < groups.len() && keeps_to(files[k], (#[trigger] groups[g]).1, qualities)
                        && files[k].roots == groups[g].1
            &&& forall|g: int, r: u8, q: ChordQuality|
                0 <= g < groups.len() && #[trigger] groups[g].1.contains(r) && #[trigger] qualities.contains(
                    q,
                ) ==> have_file_of(files, r, q)
        }),
    decreases groups.len(),
{
    if groups.len() > 0 {
        let files = octave_files(groups, qualities, max_slices);
        let front = groups.drop_last();
        let last = groups.last();
        let before = octave_files(front, qualities, max_slices);
        let own = packed_files(last.1, qualities, max_slices, false, octave_prefix(last.0));
        lemma_octave_files_hold(front, qualities, max_slices);
        lemma_packed_files_hold(last.1, qualities, max_slices, false, octave_prefix(last.0));
        assert forall|k: int| 0 <= k < files.len() implies (#[trigger] files[k]).qualities.len() >= 1
            && exists|g: int|
            0 <= g < groups.len() && keeps_to(files[k], (#[trigger] groups[g]).1, qualities)
                && files[k].roots == groups[g].1 by {
            if k < before.len() {
                assert(files[k] == before[k]);
                let g = choose|g: int|
                    0 <= g < front.len() && keeps_to(before[k], (#[trigger] front[g]).1, qualities)
                        && before[k].roots == front[g].1;
                assert(groups[g] == front[g]);
            } else {
                assert(files[k] == own[k - before.len()]);
                assert(groups[groups.len() - 1] == last);
            }
        }
        assert forall|g: int, r: u8, q: ChordQuality|
            0 <= g < groups.len() && #[trigger] groups[g].1.contains(r) && #[trigger] qualities.contains(
                q,
            ) implies have_file_of(files, r, q) by {
            if g < front.len() {
                assert(front[g].1.contains(r));
                let k = choose|k: int|
                    0 <= k < before.len() && (#[trigger] before[k]).roots.contains(r)
                        && before[k].qualities.contains(q);
                assert(files[k] == before[k]);
            } else {
                assert(last.1.contains(r));
                let k = choose|k: int|
                    0 <= k < own.len() && (#[trigger] own[k]).roots.contains(r)
                        && own[k].qualities.contains(q);
                assert(files[before.len() + k] == own[k]);
            }
        }
    }
}

/// The files of packed chords have every quality on every root, and nothing else;
/// one quality each where that is asked for, and the roots of one octave each where
/// that is.
pub proof fn lemma_files_hold(
    roots: Seq<u8>,
    qualities: Seq<ChordQuality>,
    max_slices: nat,
    file_per_chord: bool,
    per_octave: bool,
)
    ensures
        ({
            let files = chord_file_models(roots, qualities, max_slices, file_per_chord, per_octave);
            &&& forall|k: int|
                0 <= k < files.len() ==> keeps_to(#[trigger] files[k], roots, qualities)
            &&& file_per_chord && !per_octave ==> forall|k: int|
                0 <= k < files.len() ==> (#[trigger] files[k]).qualities.len() == 1
            &&& !per_octave ==> forall|k: int|
                0 <= k < files.len() ==> (#[trigger] files[k]).roots == roots
            &&& per_octave ==> forall|k: int|
                0 <= k < files.len() ==> is_in_one_octave((#[trigger] files[k]).roots)
            &&& forall|r: u8, q: ChordQuality|
                #![trigger roots.contains(r), qualities.contains(q)]
                roots.contains(r) && qualities.contains(q) ==> have_file_of(files, r, q)
        }),
{
    let files = chord_file_models(roots, qualities, max_slices, file_per_chord, per_octave);
    if per_octave {
        let groups = octaves(roots);
        lemma_octaves_keep_roots(roots);
        lemma_octave_files_hold(groups, qualities, max_slices);
        assert forall|k: int| 0 <= k < files.len() implies keeps_to(#[trigger] files[k], roots, qualities)
            && is_in_one_octave(files[k].roots) by {
            let g = choose|g: int|
                0 <= g < groups.len() && keeps_to(files[k], (#[trigger] groups[g]).1, qualities)
                    && files[k].roots == groups[g].1;
            assert forall|r: u8| #[trigger] files[k].roots.contains(r) implies roots.contains(r) by {
                lemma_groups_hold(groups, r);
            }
            assert forall|i: int, j: int|
                0 <= i < files[k].roots.len() && 0 <= j < files[k].roots.len() implies
                #[trigger] files[k].roots[i] / 12 == #[trigger] files[k].roots[j] / 12 by {
                assert(groups[g].1[i] / 12 == groups[g].0);
                assert(groups[g].1[j] / 12 == groups[g].0);
            }
        }
        assert forall|r: u8, q: ChordQuality|
            #![trigger roots.contains(r), qualities.contains(q)]
            roots.contains(r) && qualities.contains(q) implies have_file_of(files, r, q) by {
            lemma_groups_hold(groups, r);
            let g = choose|g: int| 0 <= g < groups.len() && (#[trigger] groups[g]).1.contains(r);
            assert(groups[g].1.contains(r));
        }
    } else {
        lemma_packed_files_hold(roots, qualities, max_slices, file_per_chord, Seq::empty());
    }
}

/// Whether a file is tagged by what it holds: its qualities in their order, with hyphens,
/// and in front of them the C of its octave where it holds one octave.
pub open spec fn is_tagged(f: ChordFileModel, per_octave: bool) -> bool {
    let names = Seq::new(f.qualities.len(), |i: int| f.qualities[i].tag());
    if per_octave {
        &&& f.roots.len() > 0
        &&& f.tag == "oct-"@ + note_name((f.roots[0] as nat / 12) * 12) + "_"@ + joined(names, "-"@)
    } else {
        f.tag == joined(names, "-"@)
    }
}

/// The files of some octaves are tagged by their octave and their qualities.
proof fn lemma_octave_files_are_tagged(
    groups: Seq<(u8, Seq<u8>)>,
    qualities: Seq<ChordQuality>,
    max_slices: nat,
    k: int,
)
    requires
        0 <= k < octave_files(groups, qualities, max_slices).len(),
        forall|g: int|
            0 <= g < groups.len() ==> (#[trigger] groups[g]).1.len() > 0 && groups[g].1[0] / 12
                == groups[g].0,
    ensures
        is_tagged(octave_files(groups, qualities, max_slices)[k], true),
    decreases groups.len(),
{
    let front = groups.drop_last();
    let before = octave_files(front, qualities, max_slices);
    if k < before.len() {
        assert forall|g: int| 0 <= g < front.len() implies (#[trigger] front[g]).1.len() > 0
            && front[g].1[0] / 12 == front[g].0 by {
            assert(front[g] == groups[g]);
        }
        lemma_octave_files_are_tagged(front, qualities, max_slices, k);
    } else {
        let last = groups[groups.len() - 1];
        let f = octave_files(groups, qualities, max_slices)[k];
        reveal_strlit("oct-");
        assert(quality_tags(f.qualities) =~= Seq::new(
            f.qualities.len(),
            |i: int| f.qualities[i].tag(),
        ));
        assert(f.roots == last.1);
        assert(octave_prefix(last.0).len() > 0);
    }
}

/// Every file of packed chords is tagged by what it holds.
pub proof fn lemma_files_are_tagged(
    roots: Seq<u8>,
    qualities: Seq<ChordQuality>,
    max_slices: nat,
    file_per_chord: bool,
    per_octave: bool,
    k: int,
)
    requires
        0 <= k < chord_file_models(roots, qualities, max_slices, file_per_chord, per_octave).len(),
    ensures
        is_tagged(
            chord_file_models(roots, qualities, max_slices, file_per_chord, per_octave)[k],
            per_octave,
        ),
{
    if per_octave {
        let groups = octaves(roots);
        lemma_octaves_keep_roots(roots);
        assert forall|g: int| 0 <= g < groups.len() implies (#[trigger] groups[g]).1.len() > 0
            && groups[g].1[0] / 12 == groups[g].0 by {
            assert(groups[g].1.len() > 0);
            assert(groups[g].1[0] / 12 == groups[g].0);
        }
        lemma_octave_files_are_tagged(groups, qualities, max_slices, k);
    } else {
        let f = packed_files(roots, qualities, max_slices, file_per_chord, Seq::empty())[k];
        assert(quality_tags(f.qualities) =~= Seq::new(
            f.qualities.len(),
            |i: int| f.qualities[i].tag(),
        ));
    }
}

} // verus!
