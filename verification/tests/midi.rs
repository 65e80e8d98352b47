//! The MIDI files of chains, and the messages of a live run.
use midi_sampler_to_m8::chords::ChordQuality;
use midi_sampler_to_m8::number::Binary64;
use midi_sampler_to_m8::playback::{all_notes_off, release, strike, Message};
use midi_sampler_to_m8::sfz::{
    build_chain_smf, chain_track, fits_in_track, ChainEvent, TrackStep,
};
use midi_sampler_to_m8::slots::{build_slot_map, single_note_slots};
use midly::{MetaMessage, MidiMessage, Smf, Timing, TrackEventKind};

fn bits(x: f64) -> Binary64 {
    Binary64 { bits: x.to_bits() }
}

#[test]
fn smf_places_notes_on_slot_boundaries() {
    // Two single-note slots, 1s each, held 0.5s.
    let slots = build_slot_map(60, 61, bits(1.0), None);
    let smf_bytes = build_chain_smf(&slots, 1000, 500, &[100, 100]);

    let parsed = Smf::parse(&smf_bytes).expect("round-trip parse");
    assert_eq!(parsed.tracks.len(), 1);

    // Walk the single track accumulating absolute ticks, collecting note-ons.
    let mut abs = 0u32;
    let mut note_ons: Vec<(u32, u8)> = Vec::new();
    let mut saw_eot = false;
    for ev in &parsed.tracks[0] {
        abs += ev.delta.as_int();
        match ev.kind {
            TrackEventKind::Midi {
                message: MidiMessage::NoteOn { key, vel },
                ..
            } if vel.as_int() > 0 => note_ons.push((abs, key.as_int())),
            TrackEventKind::Meta(MetaMessage::EndOfTrack) => saw_eot = true,
            _ => {}
        }
    }
    assert!(saw_eot, "track must end with EndOfTrack");
    // Note 60 at t=0ms, note 61 at t=1000ms.
    assert_eq!(note_ons, vec![(0, 60), (1000, 61)]);
    // The track spans exactly the chain.
    assert_eq!(abs, 2000);
}

#[test]
fn smf_chord_sounds_all_notes_together() {
    // One C-major slot: notes 60/64/67 all on at tick 0.
    let slots = build_slot_map(60, 60, bits(2.0), Some(ChordQuality::Maj));
    let smf_bytes = build_chain_smf(&slots, 2000, 1000, &[90]);
    let parsed = Smf::parse(&smf_bytes).unwrap();

    let mut abs = 0u32;
    let mut ons = Vec::new();
    for ev in &parsed.tracks[0] {
        abs += ev.delta.as_int();
        if let TrackEventKind::Midi {
            message: MidiMessage::NoteOn { key, vel },
            ..
        } = ev.kind
        {
            if vel.as_int() > 0 {
                ons.push((abs, key.as_int(), vel.as_int()));
            }
        }
    }
    assert_eq!(
        ons,
        vec![(0, 60, 90), (0, 64, 90), (0, 67, 90)],
        "all chord tones start together at the slot boundary with the slot velocity"
    );
}

#[test]
fn ticks_are_milliseconds() {
    let slots = single_note_slots(&[60]);
    let bytes = build_chain_smf(&slots, 250, 200, &[64]);
    let parsed = Smf::parse(&bytes).unwrap();
    assert!(matches!(parsed.header.timing, Timing::Metrical(ppq) if ppq.as_int() == 1000));
    assert!(matches!(
        parsed.tracks[0][0].kind,
        TrackEventKind::Meta(MetaMessage::Tempo(us)) if us.as_int() == 1_000_000
    ));
    assert_eq!(parsed.tracks[0].len(), 4);
}

#[test]
fn ends_come_before_starts_on_one_tick() {
    // Notes held for the whole slot end where the next one starts.
    let slots = single_note_slots(&[60, 61]);
    let steps = chain_track(&slots, 100, 100, &[1]);
    assert_eq!(
        steps,
        vec![
            TrackStep { delta: 0, event: ChainEvent::SetTempo(1_000_000) },
            TrackStep { delta: 0, event: ChainEvent::Strike { channel: 0, key: 60, velocity: 1 } },
            TrackStep { delta: 100, event: ChainEvent::Release { channel: 0, key: 60, velocity: 0 } },
            // The missing velocity is 100.
            TrackStep { delta: 0, event: ChainEvent::Strike { channel: 0, key: 61, velocity: 100 } },
            TrackStep { delta: 100, event: ChainEvent::Release { channel: 0, key: 61, velocity: 0 } },
            TrackStep { delta: 0, event: ChainEvent::EndTrack },
        ]
    );
}

#[test]
fn holds_end_with_the_chain() {
    // Held for longer than two slots: the first note overlaps, both end at the end.
    let slots = single_note_slots(&[60, 61]);
    let steps = chain_track(&slots, 100, 250, &[1, 2]);
    let deltas: Vec<u32> = steps.iter().map(|s| s.delta).collect();
    assert_eq!(deltas, vec![0, 0, 100, 100, 0, 0]);
    assert_eq!(steps[3].event, ChainEvent::Release { channel: 0, key: 60, velocity: 0 });
    // An empty chain is a track that ends at once.
    let empty = chain_track(&single_note_slots(&[]), 100, 50, &[]);
    assert_eq!(empty.len(), 2);
    assert_eq!(empty[1], TrackStep { delta: 0, event: ChainEvent::EndTrack });
    // Slots without length release everything at the start.
    let flat = chain_track(&single_note_slots(&[60]), 0, 50, &[1]);
    assert_eq!(flat[1].event, ChainEvent::Release { channel: 0, key: 60, velocity: 0 });
}

#[test]
fn chains_must_fit_the_file() {
    let slots = single_note_slots(&[60, 61]);
    assert!(fits_in_track(&slots, u32::MAX / 2, 1));
    assert!(!fits_in_track(&slots, u32::MAX / 2 + 1, 0));
    assert!(!fits_in_track(&slots, 1, u32::MAX));
    assert!(fits_in_track(&slots, 1, u32::MAX - 1));
    assert!(fits_in_track(&single_note_slots(&[]), u32::MAX, u32::MAX));
}

#[test]
fn messages_address_the_channel() {
    assert_eq!(strike(1, &[60, 64], 90), vec![
        Message { status: 0x90, first: 60, second: 90 },
        Message { status: 0x90, first: 64, second: 90 },
    ]);
    assert_eq!(release(16, &[60]), vec![Message { status: 0x8F, first: 60, second: 0 }]);
    let off = all_notes_off(3);
    assert_eq!(off.len(), 129);
    assert_eq!(off[127], Message { status: 0x82, first: 127, second: 0 });
    assert_eq!(off[128], Message { status: 0xB2, first: 123, second: 0 });
}
