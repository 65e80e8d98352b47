//! Notes, chords and the slots they go into.
use midi_sampler_to_m8::chords::{chord_label, chord_notes, ChordQuality};
use midi_sampler_to_m8::notes::midi_to_m8_note;
use midi_sampler_to_m8::number::Binary64;
use midi_sampler_to_m8::slots::{build_slot_map, chord_slots, single_note_slots};

fn bits(x: f64) -> Binary64 {
    Binary64 { bits: x.to_bits() }
}

#[test]
fn intervals_match_theory() {
    assert_eq!(ChordQuality::Maj.intervals(), &[0, 4, 7]);
    assert_eq!(ChordQuality::Min7.intervals(), &[0, 3, 7, 10]);
    assert_eq!(ChordQuality::Power.intervals(), &[0, 7]);
}

#[test]
fn chord_notes_builds_from_root() {
    assert_eq!(chord_notes(60, ChordQuality::Maj), vec![60, 64, 67]);
    assert_eq!(chord_notes(60, ChordQuality::Min7), vec![60, 63, 67, 70]);
}

#[test]
fn chord_notes_drops_tones_above_127() {
    // Root 125 maj would be 125,129,132 -> only the root fits.
    assert_eq!(chord_notes(125, ChordQuality::Maj), vec![125]);
    // Root 122 maj: 122,126,129 -> drops the 129.
    assert_eq!(chord_notes(122, ChordQuality::Maj), vec![122, 126]);
}

#[test]
fn labels_read_like_the_m8() {
    assert_eq!(chord_label(60, ChordQuality::Maj), "C4 maj");
    assert_eq!(chord_label(0, ChordQuality::Power), "C-1 5");
}

#[test]
fn every_quality_has_a_tag_of_its_own() {
    let tags: Vec<&str> = ChordQuality::ALL.iter().map(|q| q.short()).collect();
    assert_eq!(
        tags,
        vec!["maj", "min", "dim", "aug", "maj7", "min7", "dom7", "sus2", "sus4", "5"]
    );
}

#[test]
fn note_names_match_m8() {
    assert_eq!(midi_to_m8_note(0), "C-1");
    assert_eq!(midi_to_m8_note(1), "C#-1");
    assert_eq!(midi_to_m8_note(11), "B-1");
    assert_eq!(midi_to_m8_note(12), "C0");
    assert_eq!(midi_to_m8_note(24), "C1");
    assert_eq!(midi_to_m8_note(36), "C2");
    assert_eq!(midi_to_m8_note(48), "C3");
    assert_eq!(midi_to_m8_note(60), "C4");
    assert_eq!(midi_to_m8_note(108), "C8");
    assert_eq!(midi_to_m8_note(120), "C9");
    assert_eq!(midi_to_m8_note(127), "G9");
}

#[test]
fn note_names_are_all_different() {
    let names: Vec<String> = (0..=255u8).map(midi_to_m8_note).collect();
    for i in 0..names.len() {
        for j in 0..i {
            assert_ne!(names[i], names[j]);
        }
    }
    assert_eq!(names[255], "D#20");
}

#[test]
fn full_range_map_has_128_slots() {
    let map = build_slot_map(0, 127, bits(9.0), None);
    assert_eq!(map.len(), 128);
}

#[test]
fn first_and_last_slots_are_correct() {
    let map = build_slot_map(0, 127, bits(9.0), None);

    let first = &map[0];
    assert_eq!(first.slot, 0);
    assert_eq!(first.midi, 0);
    assert_eq!(first.m8_note, "C-1");
    assert_eq!(first.start_seconds, bits(0.0));
    assert_eq!(first.end_seconds, bits(9.0));

    let last = &map[127];
    assert_eq!(last.slot, 127);
    assert_eq!(last.midi, 127);
    assert_eq!(last.m8_note, "G9");
    assert_eq!(last.start_seconds, bits(127.0 * 9.0));
    assert_eq!(last.end_seconds, bits(128.0 * 9.0));
}

#[test]
fn slot_index_equals_midi_for_full_range() {
    let map = build_slot_map(0, 127, bits(9.0), None);
    for (i, slot) in map.iter().enumerate() {
        assert_eq!(slot.slot as usize, i);
        assert_eq!(slot.midi as usize, i);
    }
}

#[test]
fn start_end_seconds_track_slot_length() {
    let map = build_slot_map(0, 127, bits(9.0), None);
    // Slot 60 (middle C) should start at 540s and end at 549s.
    assert_eq!(map[60].start_seconds, bits(540.0));
    assert_eq!(map[60].end_seconds, bits(549.0));
}

#[test]
fn exact_slots_lie_back_to_back() {
    for length in [9.0, 0.25, 3.5] {
        let map = build_slot_map(0, 127, bits(length), None);
        for i in 0..map.len() - 1 {
            assert_eq!(map[i].end_seconds, map[i + 1].start_seconds);
        }
    }
}

#[test]
fn slot_labels_and_notes_follow_the_chord() {
    let plain = build_slot_map(60, 61, bits(1.0), None);
    assert_eq!(plain[0].notes, vec![60]);
    assert_eq!(plain[0].label, "C4");
    assert_eq!(plain[1].slot, 1);
    assert_eq!(plain[1].label, "C#4");
    let chord = build_slot_map(60, 60, bits(1.0), Some(ChordQuality::Min));
    assert_eq!(chord[0].notes, vec![60, 63, 67]);
    assert_eq!(chord[0].label, "C4 min");
    assert_eq!(chord[0].m8_note, "C4");
    assert!(build_slot_map(61, 60, bits(1.0), None).is_empty());
}

#[test]
fn chord_slots_run_through_the_roots_of_each_quality() {
    let slots = chord_slots(&[60, 62], &[ChordQuality::Maj, ChordQuality::Power], bits(0.5));
    let labels: Vec<String> = slots.iter().map(|s| s.label.clone()).collect();
    assert_eq!(labels, vec!["C4 maj", "D4 maj", "C4 5", "D4 5"]);
    assert_eq!(slots[3].slot, 3);
    assert_eq!(slots[3].start_seconds, bits(1.5));
    assert_eq!(slots[3].end_seconds, bits(2.0));
    assert!(chord_slots(&[], &[ChordQuality::Maj], bits(0.5)).is_empty());
}

#[test]
fn single_note_slots_carry_one_note_each() {
    let slots = single_note_slots(&[40, 41]);
    assert_eq!(slots.len(), 2);
    assert_eq!(slots[1].slot, 1);
    assert_eq!(slots[1].notes, vec![41]);
    assert_eq!(slots[1].label, "F2");
    assert_eq!(slots[1].end_seconds, bits(0.0));
}
