//! The slots of a sample chain: which notes each one holds and where it lies.
use crate::arith::{
    lemma_leading_bits, lemma_packed_decodes, lemma_product_is_canonical, lemma_small_addend,
    lemma_times_keeps_sign, lemma_value_is_canonical, lemma_whole_value_bounds, plus, times_whole,
};
use crate::chord_files::copy_notes;
use crate::chords::{chord_label, chord_notes, label_text, tones, ChordQuality};
use crate::notes::{midi_to_m8_note, note_name};
use crate::number::{
    excess_bits, lemma_excess_unit, lemma_pow2_step, product, sum, to_53_bits, whole_value, Binary64,
    Value, INFINITY, TWO_52, TWO_53,
};
use vstd::arithmetic::power2::pow2;
use vstd::prelude::*;

verus! {

/// One entry in the M8 sample-chain map: a note or a chord recorded into a
/// fixed-length slot.
#[derive(Debug)]
pub struct Slot {
    /// Position in the chain, modulo 256.
    pub slot: u8,
    /// MIDI note that was played, or the root of the chord.
    pub midi: u8,
    /// M8 note name for `midi`.
    pub m8_note: String,
    /// Every MIDI note sounded in the slot.
    pub notes: Vec<u8>,
    /// The note name, or the label of the chord.
    pub label: String,
    /// Start offset of this slot within the final WAV, in seconds.
    pub start_seconds: Binary64,
    /// End offset of this slot within the final WAV, in seconds.
    pub end_seconds: Binary64,
}

/// What a slot holds.
#[verifier::ext_equal]
pub struct SlotModel {
    /// Position in the chain, modulo 256.
    pub slot: u8,
    /// The note, or the root of the chord.
    pub midi: u8,
    /// The M8 name of `midi`.
    pub m8_note: Seq<char>,
    /// Every note sounded in the slot.
    pub notes: Seq<u8>,
    /// The note name, or the label of the chord.
    pub label: Seq<char>,
    /// Where the slot starts, in seconds.
    pub start: Binary64,
    /// Where the slot ends, in seconds.
    pub end: Binary64,
}

impl View for Slot {
    type V = SlotModel;

    open spec fn view(&self) -> SlotModel {
        SlotModel {
            slot: self.slot,
            midi: self.midi,
            m8_note: self.m8_note@,
            notes: self.notes@,
            label: self.label@,
            start: self.start_seconds,
            end: self.end_seconds,
        }
    }
}

/// What the slots of a list hold.
pub open spec fn slot_models(slots: Seq<Slot>) -> Seq<SlotModel> {
    slots.map_values(|s: Slot| s@)
}

/// Where the slot at position `i` starts: `i` times the slot length.
pub open spec fn slot_start(length: Binary64, i: nat) -> Binary64 {
    times_whole(length, i)
}

/// Where the slot at position `i` ends: one slot length after its start.
pub open spec fn slot_end(length: Binary64, i: nat) -> Binary64 {
    plus(slot_start(length, i), length)
}

/// The notes of a slot: the note alone, or the chord that it is the root of.
pub open spec fn slot_notes(midi: u8, chord: Option<ChordQuality>) -> Seq<u8> {
    match chord {
        Some(q) => tones(midi, q.offsets()),
        None => seq![midi],
    }
}

/// The label of a slot.
pub open spec fn slot_label(midi: u8, chord: Option<ChordQuality>) -> Seq<char> {
    match chord {
        Some(q) => label_text(midi as nat, q),
        None => note_name(midi as nat),
    }
}

/// The slot at position `i` of a chain.
pub open spec fn slot_model(
    i: nat,
    midi: u8,
    chord: Option<ChordQuality>,
    length: Binary64,
) -> SlotModel {
    SlotModel {
        slot: (i % 256) as u8,
        midi,
        m8_note: note_name(midi as nat),
        notes: slot_notes(midi, chord),
        label: slot_label(midi, chord),
        start: slot_start(length, i),
        end: slot_end(length, i),
    }
}

/// How many notes a range holds.
pub open spec fn range_len(start_midi: u8, end_midi: u8) -> nat {
    if start_midi <= end_midi {
        (end_midi - start_midi + 1) as nat
    } else {
        0
    }
}

/// The chain of the notes `start_midi..=end_midi`, each alone or as the root of
/// one chord.
pub open spec fn slot_map(
    start_midi: u8,
    end_midi: u8,
    length: Binary64,
    chord: Option<ChordQuality>,
) -> Seq<SlotModel> {
    Seq::new(
        range_len(start_midi, end_midi),
        |i: int| slot_model(i as nat, (start_midi + i) as u8, chord, length),
    )
}

/// Makes the slot at position `i` of a chain.
fn make_slot(i: usize, midi: u8, chord: Option<ChordQuality>, length: Binary64) -> (r: Slot)
    ensures
        r@ == slot_model(i as nat, midi, chord, length),
{
    let start = length.times(i as u64);
    proof {
        lemma_times_keeps_sign(length, i as nat);
    }
    let end = start.after(length);
    let (notes, label) = match chord {
        Some(q) => (chord_notes(midi, q), chord_label(midi, q)),
        None => (vec![midi], midi_to_m8_note(midi)),
    };
    assert(chord is None ==> notes@ =~= seq![midi]);
    Slot {
        slot: (i % 256) as u8,
        midi,
        m8_note: midi_to_m8_note(midi),
        notes,
        label,
        start_seconds: start,
        end_seconds: end,
    }
}

/// Build the ordered slot map for MIDI notes `start_midi..=end_midi`, single
/// notes or chords of one quality rooted at each note.
///
/// Each slot occupies exactly one slot length, laid back to back, so the `slot`
/// index equals `midi - start_midi` and the slot starts at `slot` times the
/// length.
pub fn build_slot_map(
    start_midi: u8,
    end_midi: u8,
    slot_length: Binary64,
    chord: Option<ChordQuality>,
) -> (r: Vec<Slot>)
    ensures
        slot_models(r@) == slot_map(start_midi, end_midi, slot_length, chord),
        r.len() == range_len(start_midi, end_midi),
{
    let mut slots: Vec<Slot> = Vec::new();
    let mut midi: u16 = start_midi as u16;
    let ghost whole = slot_map(start_midi, end_midi, slot_length, chord);
    while midi <= end_midi as u16
        invariant
            start_midi <= midi,
            start_midi <= end_midi ==> midi <= end_midi + 1,
            start_midi > end_midi ==> midi == start_midi,
            slots.len() == midi - start_midi,
            whole == slot_map(start_midi, end_midi, slot_length, chord),
            slot_models(slots@) =~= whole.take(midi - start_midi),
        decreases end_midi + 1 - midi,
    {
        let slot = make_slot((midi - start_midi as u16) as usize, midi as u8, chord, slot_length);
        proof {
            let i = midi - start_midi;
            assert(whole.take(i + 1) =~= whole.take(i).push(whole[i]));
            assert(slot_models(slots@.push(slot)) =~= slot_models(slots@).push(slot@));
        }
        slots.push(slot);
        midi += 1;
    }
    assert(whole.take(midi - start_midi) =~= whole);
    slots
}

/// The chords of some qualities on some roots: every root of the first quality,
/// then every root of the next.
pub open spec fn chord_map(
    roots: Seq<u8>,
    qualities: Seq<ChordQuality>,
    length: Binary64,
) -> Seq<SlotModel> {
    Seq::new(
        roots.len() * qualities.len(),
        |i: int|
            slot_model(
                i as nat,
                roots[i % roots.len() as int],
                Some(qualities[i / roots.len() as int]),
                length,
            ),
    )
}

/// Build the slots of a packed chord file: every root of the first quality, then
/// every root of the next, laid back to back.
pub fn chord_slots(roots: &[u8], qualities: &[ChordQuality], slot_length: Binary64) -> (r: Vec<Slot>)
    requires
        roots.len() * qualities.len() <= usize::MAX,
    ensures
        slot_models(r@) == chord_map(roots@, qualities@, slot_length),
        r.len() == roots.len() * qualities.len(),
{
    let mut slots: Vec<Slot> = Vec::new();
    let mut q: usize = 0;
    let ghost whole = chord_map(roots@, qualities@, slot_length);
    let ghost n = roots.len();
    while q < qualities.len()
        invariant
            q <= qualities.len(),
            n == roots.len(),
            n * qualities.len() <= usize::MAX,
            whole == chord_map(roots@, qualities@, slot_length),
            slots.len() == q * n,
            slot_models(slots@) =~= whole.take(q * n),
        decreases qualities.len() - q,
    {
        let quality = qualities[q];
        let mut k: usize = 0;
        proof {
            assert((q + 1) * n == q * n + n) by (nonlinear_arith);
            assert((q + 1) * n <= qualities.len() * n) by (nonlinear_arith)
                requires
                    q + 1 <= qualities.len(),
                    n >= 0,
            ;
            assert(qualities.len() * n == n * qualities.len()) by (nonlinear_arith);
        }
        while k < roots.len()
            invariant
                q < qualities.len(),
                quality == qualities[q as int],
                k <= n,
                n == roots.len(),
                q * n + n <= n * qualities.len() <= usize::MAX,
                whole == chord_map(roots@, qualities@, slot_length),
                slots.len() == q * n + k,
                slot_models(slots@) =~= whole.take(q * n + k),
            decreases n - k,
        {
            let slot = make_slot(slots.len(), roots[k], Some(quality), slot_length);
            proof {
                let i = q * n + k;
                vstd::arithmetic::div_mod::lemma_fundamental_div_mod_converse(
                    i,
                    n as int,
                    q as int,
                    k as int,
                );
                assert(whole[i] == slot@);
                assert(whole.take(i + 1) =~= whole.take(i).push(whole[i]));
                assert(slot_models(slots@.push(slot)) =~= slot_models(slots@).push(slot@));
            }
            slots.push(slot);
            k += 1;
        }
        q += 1;
    }
    proof {
        assert(q * n == n * qualities.len()) by (nonlinear_arith)
            requires
                q == qualities.len(),
        ;
        assert(whole.take(q * n) =~= whole);
    }
    slots
}

/// Copies some slots.
pub fn copy_slots(slots: &Vec<Slot>) -> (r: Vec<Slot>)
    ensures
        slot_models(r@) == slot_models(slots@),
        r.len() == slots.len(),
{
    let mut out: Vec<Slot> = Vec::new();
    let mut i: usize = 0;
    while i < slots.len()
        invariant
            i <= slots.len(),
            slot_models(out@) =~= slot_models(slots@).take(i as int),
        decreases slots.len() - i,
    {
        let s = &slots[i];
        let copy = Slot {
            slot: s.slot,
            midi: s.midi,
            m8_note: s.m8_note.clone(),
            notes: copy_notes(s.notes.as_slice()),
            label: s.label.clone(),
            start_seconds: s.start_seconds,
            end_seconds: s.end_seconds,
        };
        proof {
            assert(copy@ =~= s@);
            assert(slot_models(out@.push(copy)) =~= slot_models(out@).push(copy@));
        }
        out.push(copy);
        i += 1;
    }
    assert(slot_models(out@) =~= slot_models(slots@));
    out
}

/// A slot of one note at position `i`, without a place in time.
pub open spec fn bare_slot(i: nat, midi: u8) -> SlotModel {
    SlotModel {
        slot: (i % 256) as u8,
        midi,
        m8_note: note_name(midi as nat),
        notes: seq![midi],
        label: note_name(midi as nat),
        start: Binary64 { bits: 0 },
        end: Binary64 { bits: 0 },
    }
}

/// Minimal single-note slots for probe and measurement chains, which read only
/// the notes of a slot and its position.
pub fn single_note_slots(notes: &[u8]) -> (r: Vec<Slot>)
    ensures
        slot_models(r@) == Seq::new(notes@.len(), |i: int| bare_slot(i as nat, notes@[i])),
        r.len() == notes.len(),
{
    let ghost whole = Seq::new(notes@.len(), |i: int| bare_slot(i as nat, notes@[i]));
    let mut out: Vec<Slot> = Vec::new();
    let mut i: usize = 0;
    while i < notes.len()
        invariant
            i <= notes.len(),
            whole == Seq::new(notes@.len(), |i: int| bare_slot(i as nat, notes@[i])),
            slot_models(out@) =~= whole.take(i as int),
        decreases notes.len() - i,
    {
        let midi: u8 = notes[i];
        let mut own: Vec<u8> = Vec::new();
        own.push(midi);
        let slot = Slot {
            slot: (i % 256) as u8,
            midi,
            m8_note: midi_to_m8_note(midi),
            notes: own,
            label: midi_to_m8_note(midi),
            start_seconds: Binary64 { bits: 0 },
            end_seconds: Binary64 { bits: 0 },
        };
        proof {
            assert(own@ =~= seq![midi]);
            assert(slot@ =~= whole[i as int]);
            assert(slot_models(out@.push(slot)) =~= slot_models(out@).push(slot@));
        }
        out.push(slot);
        i += 1;
    }
    assert(whole.take(i as int) =~= whole);
    out
}

/// A chain of a note range is keyed: every slot holds the note as far above the
/// first one as its index says, and starts at its index times the slot length.
pub proof fn lemma_slots_are_keyed(
    start_midi: u8,
    end_midi: u8,
    length: Binary64,
    chord: Option<ChordQuality>,
    i: int,
)
    requires
        0 <= i < range_len(start_midi, end_midi),
    ensures
        slot_map(start_midi, end_midi, length, chord)[i].slot == i,
        slot_map(start_midi, end_midi, length, chord)[i].midi == start_midi + i,
        slot_map(start_midi, end_midi, length, chord)[i].start == times_whole(length, i as nat),
{
}

/// The chain of the full range has 128 slots, and its slot index is the MIDI note.
pub proof fn lemma_full_range_is_one_to_one(length: Binary64, chord: Option<ChordQuality>)
    ensures
        slot_map(0, 127, length, chord).len() == 128,
        forall|i: int|
            0 <= i < 128 ==> (#[trigger] slot_map(0, 127, length, chord)[i]).slot == i && slot_map(
                0,
                127,
                length,
                chord,
            )[i].midi == i,
{
}

/// Packed chords are laid out by quality: the roots of the first one in order, then
/// those of the next.
pub proof fn lemma_chords_lie_by_quality(
    roots: Seq<u8>,
    qualities: Seq<ChordQuality>,
    length: Binary64,
    q: int,
    k: int,
)
    requires
        0 <= q < qualities.len(),
        0 <= k < roots.len(),
    ensures
        q * roots.len() + k < chord_map(roots, qualities, length).len(),
        chord_map(roots, qualities, length)[q * roots.len() + k] == slot_model(
            (q * roots.len() + k) as nat,
            roots[k],
            Some(qualities[q]),
            length,
        ),
{
    let n = roots.len() as int;
    let i = q * n + k;
    vstd::arithmetic::div_mod::lemma_fundamental_div_mod_converse(i, n, q, k);
    assert(0 <= i < n * qualities.len()) by (nonlinear_arith)
        requires
            0 <= q < qualities.len(),
            0 <= k < n,
            i == q * n + k,
    ;
}

/// Slots lie back to back wherever a slot's start needs no rounding: each ends
/// where the next one starts.
pub proof fn lemma_slots_lie_back_to_back(length: Binary64, i: nat)
    requires
        length.is_positive(),
        length.bits < INFINITY,
        i + 1 < TWO_53,
        to_53_bits(length.mantissa() * i) == length.mantissa() * i,
        slot_start(length, i).bits < INFINITY,
    ensures
        slot_end(length, i) == slot_start(length, i + 1),
{
    let m = length.mantissa();
    let e = length.exponent();
    let v = product(length.value(), whole_value(i));
    lemma_value_is_canonical(length);
    lemma_whole_value_bounds(i);
    lemma_whole_value_bounds(i + 1);
    lemma_product_is_canonical(length, i);
    lemma_times_keeps_sign(length, i);
    let start = slot_start(length, i);
    lemma_pow2_step(0);
    assert(m * 1 == m);
    if i == 0 {
        assert(m * 0 == 0);
        lemma_whole_value_bounds(0);
        lemma_whole_value_bounds(m);
        let d = (e + 1074) as nat;
        assert(start.bits == 0);
        assert(start.value() == (Value { units: 0, exponent: -1074 }));
        assert(0 * pow2(0) == 0);
        if m >= TWO_52 {
            lemma_pow2_step(d);
            lemma_small_addend(m, d, 0);
        }
        assert(sum(start.value(), length.value()) == (Value { units: m, exponent: e }));
    } else {
        let n = m * i;
        let k = excess_bits(n);
        let unit = pow2(k);
        lemma_excess_unit(n);
        lemma_leading_bits(n);
        let u = n / unit;
        // The start is exact, so it is a whole number of its units.
        assert(u * unit == n) by {
            vstd::arithmetic::div_mod::lemma_fundamental_div_mod(n as int, unit as int);
            assert(unit * u == u * unit) by (nonlinear_arith);
            assert((u + 1) * unit == u * unit + unit) by (nonlinear_arith);
        }
        vstd::arithmetic::div_mod::lemma_div_by_multiple(u as int, unit as int);
        assert(v == (Value { units: u, exponent: k + e }));
        assert(n >= 1) by (nonlinear_arith)
            requires
                n == m * i,
                m >= 1,
                i >= 1,
        ;
        assert(u > 0) by (nonlinear_arith)
            requires
                u * unit == n,
                n >= 1,
        ;
        lemma_packed_decodes(v, start);
        assert(m * (i + 1) == n + m) by (nonlinear_arith)
            requires
                n == m * i,
        ;
        assert(sum(start.value(), length.value()).units == whole_value(m * (i + 1)).units);
    }
}

} // verus!
