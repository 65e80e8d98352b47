//! What the track of a chain plays: which note is struck when, how hard, and when it
//! is released.
use crate::sfz::{
    chain_events, chain_fits, chain_steps, elapsed, in_order, inserted, lemma_in_order,
    lemma_inserted, lemma_notes_fill_their_slot, lemma_ticks, lemma_track_keeps_ticks,
    lemma_track_spans_chain, note_count, off_tick, on_tick, slot_events, smf_bytes, velocity_of,
    ChainEvent, TimedEvent, TrackStep,
};
use crate::slots::Slot;
use vstd::prelude::*;

verus! {

/// Whether a track strikes a note at one moment, so hard, and releases it at another.
pub open spec fn plays_note(steps: Seq<TrackStep>, key: u8, velocity: u8, on: int, off: int) -> bool {
    &&& exists|a: int|
        0 <= a < steps.len() && (#[trigger] steps[a]).event == (ChainEvent::Strike {
            channel: 0,
            key,
            velocity,
        }) && elapsed(steps, (a + 1) as nat) == on
    &&& exists|b: int|
        0 <= b < steps.len() && (#[trigger] steps[b]).event == (ChainEvent::Release {
            channel: 0,
            key,
            velocity: 0,
        }) && elapsed(steps, (b + 1) as nat) == off
}

/// Whether a strike at one moment is that of a note of the slot that starts there.
pub open spec fn is_asked_for(
    lists: Seq<Seq<u8>>,
    velocities: Seq<u8>,
    slot_ms: int,
    key: u8,
    velocity: u8,
    at: int,
) -> bool {
    exists|i: int|
        0 <= i < lists.len() && (#[trigger] lists[i]).contains(key) && velocity == velocities[i] && at
            == slot_ms * i
}

/// Whether a track plays a chain: it sets a tempo at which a thousand ticks are a
/// second, strikes every note of slot `i` on the boundary of the slot with the
/// slot's velocity, holds it for the hold but not beyond the end of the chain,
/// strikes nothing else, and ends with the last slot.
pub open spec fn plays_chain(
    steps: Seq<TrackStep>,
    lists: Seq<Seq<u8>>,
    velocities: Seq<u8>,
    slot_ms: int,
    hold_ms: int,
) -> bool {
    let end = slot_ms * lists.len();
    &&& steps.len() >= 2
    &&& steps[0] == (TrackStep { delta: 0, event: ChainEvent::SetTempo(1_000_000) })
    &&& steps.last().event == ChainEvent::EndTrack
    &&& elapsed(steps, steps.len()) == end
    &&& forall|i: int, k: int|
        0 <= i < lists.len() && 0 <= k < lists[i].len() ==> plays_note(
            steps,
            #[trigger] lists[i][k],
            velocities[i],
            slot_ms * i,
            if slot_ms * i + hold_ms < end {
                slot_ms * i + hold_ms
            } else {
                end
            },
        )
    &&& forall|a: int|
        0 <= a < steps.len() ==> match (#[trigger] steps[a]).event {
            ChainEvent::Strike { channel, key, velocity } => channel == 0 && is_asked_for(
                lists,
                velocities,
                slot_ms,
                key,
                velocity,
                elapsed(steps, (a + 1) as nat) as int,
            ),
            _ => true,
        }
}

/// Whether a track plays some notes one after the other, each in a slot of its own
/// and all of them as hard.
pub open spec fn plays_singly(
    steps: Seq<TrackStep>,
    notes: Seq<u8>,
    velocity: u8,
    slot_ms: int,
    hold_ms: int,
) -> bool {
    let end = slot_ms * notes.len();
    &&& steps.len() == 2 * notes.len() + 2
    &&& steps[0] == (TrackStep { delta: 0, event: ChainEvent::SetTempo(1_000_000) })
    &&& elapsed(steps, steps.len()) == end
    &&& forall|i: int|
        0 <= i < notes.len() ==> plays_note(
            steps,
            #[trigger] notes[i],
            velocity,
            slot_ms * i,
            if slot_ms * i + hold_ms < end {
                slot_ms * i + hold_ms
            } else {
                end
            },
        )
    &&& forall|a: int|
        0 <= a < steps.len() && (#[trigger] steps[a]).event is Strike
            ==> steps[a].event->Strike_velocity == velocity
}

/// The notes that some slots sound.
pub open spec fn slot_notes(slots: Seq<Slot>) -> Seq<Seq<u8>> {
    Seq::new(slots.len(), |i: int| slots[i].notes@)
}

/// Whether bytes are those of a MIDI file, at a thousand ticks per quarter note,
/// whose track plays a chain.
pub open spec fn is_file_of(
    bytes: Seq<u8>,
    lists: Seq<Seq<u8>>,
    velocities: Seq<u8>,
    slot_ms: int,
    hold_ms: int,
) -> bool {
    exists|steps: Seq<TrackStep>|
        bytes == #[trigger] smf_bytes(1000, steps) && plays_chain(
            steps,
            lists,
            velocities,
            slot_ms,
            hold_ms,
        )
}

/// Whether bytes are those of a MIDI file, at a thousand ticks per quarter note,
/// whose track plays some notes one after the other.
pub open spec fn is_file_of_notes(
    bytes: Seq<u8>,
    notes: Seq<u8>,
    velocity: u8,
    slot_ms: int,
    hold_ms: int,
) -> bool {
    exists|steps: Seq<TrackStep>|
        bytes == #[trigger] smf_bytes(1000, steps) && plays_singly(
            steps,
            notes,
            velocity,
            slot_ms,
            hold_ms,
        )
}

/// What is put into ordered events behind the first one leaves that one first.
proof fn lemma_inserted_keeps_first(events: Seq<TimedEvent>, e: TimedEvent)
    requires
        events.len() > 0,
        events[0].not_after(e),
    ensures
        inserted(events, e).len() == events.len() + 1,
        inserted(events, e)[0] == events[0],
    decreases events.len(),
{
    if !events.last().not_after(e) {
        lemma_inserted_keeps_first(events.drop_last(), e);
    }
}

/// An event that no other one precedes stays first.
proof fn lemma_first_stays(events: Seq<TimedEvent>)
    requires
        events.len() > 0,
        events[0].tick == 0,
        !(events[0].event is Strike),
    ensures
        in_order(events).len() == events.len(),
        in_order(events)[0] == events[0],
    decreases events.len(),
{
    let front = events.drop_last();
    if front.len() > 0 {
        lemma_first_stays(front);
        lemma_inserted_keeps_first(in_order(front), events.last());
    } else {
        assert(in_order(front) =~= Seq::<TimedEvent>::empty());
    }
}

/// Ordering adds no event.
proof fn lemma_ordered_came_in(events: Seq<TimedEvent>, i: int)
    requires
        0 <= i < in_order(events).len(),
    ensures
        events.contains(in_order(events)[i]),
    decreases events.len(),
{
    let front = events.drop_last();
    let x = in_order(events)[i];
    lemma_in_order(front, u32::MAX as nat);
    lemma_inserted(in_order(front), events.last(), u32::MAX as nat);
    if x == events.last() {
        assert(events[events.len() - 1] == x);
    } else {
        let all = inserted(in_order(front), events.last());
        assert(all[i] == x);
        let j = choose|j: int| 0 <= j < in_order(front).len() && in_order(front)[j] == all[i];
        lemma_ordered_came_in(front, j);
        let k = choose|k: int| 0 <= k < front.len() && front[k] == x;
        assert(events[k] == x);
    }
}

/// The strikes of a slot are those of its notes, with its velocity, on its start.
proof fn lemma_slot_strikes(notes: Seq<u8>, on: nat, off: nat, velocity: u8, n: nat, x: TimedEvent)
    requires
        n <= notes.len(),
        slot_events(notes, on, off, velocity, n).contains(x),
        x.event is Strike,
    ensures
        x.tick == on as u32,
        exists|k: int|
            0 <= k < n && x.event == (ChainEvent::Strike {
                channel: 0,
                key: #[trigger] notes[k],
                velocity,
            }),
    decreases n,
{
    let all = slot_events(notes, on, off, velocity, n);
    if n > 0 {
        let front = slot_events(notes, on, off, velocity, (n - 1) as nat);
        let j = choose|j: int| 0 <= j < all.len() && all[j] == x;
        if j < front.len() {
            assert(front[j] == x);
            lemma_slot_strikes(notes, on, off, velocity, (n - 1) as nat, x);
        } else if j == front.len() {
            assert(x.event == (ChainEvent::Strike { channel: 0, key: notes[n - 1], velocity }));
        }
    }
}

/// The strikes of a chain are those of the notes of its slots.
proof fn lemma_chain_strikes(
    lists: Seq<Seq<u8>>,
    slot_ms: u32,
    hold_ms: u32,
    velocities: Seq<u8>,
    n: nat,
    x: TimedEvent,
)
    requires
        chain_fits(lists, slot_ms, hold_ms),
        velocities.len() >= lists.len(),
        n <= lists.len(),
        chain_events(lists, slot_ms, hold_ms, velocities, n).contains(x),
        x.event is Strike,
    ensures
        x.event->Strike_channel == 0,
        is_asked_for(
            lists,
            velocities,
            slot_ms as int,
            x.event->Strike_key,
            x.event->Strike_velocity,
            x.tick as int,
        ),
    decreases n,
{
    let all = chain_events(lists, slot_ms, hold_ms, velocities, n);
    let j = choose|j: int| 0 <= j < all.len() && all[j] == x;
    if n > 0 {
        let i = (n - 1) as nat;
        let front = chain_events(lists, slot_ms, hold_ms, velocities, i);
        if j < front.len() {
            assert(front[j] == x);
            lemma_chain_strikes(lists, slot_ms, hold_ms, velocities, i, x);
        } else {
            let notes = lists[i as int];
            let on = on_tick(slot_ms, i);
            let off = off_tick(slot_ms, hold_ms, lists.len(), i);
            let own = slot_events(notes, on, off, velocities[i as int], notes.len());
            assert(own[j - front.len()] == x);
            lemma_slot_strikes(notes, on, off, velocities[i as int], notes.len(), x);
            lemma_ticks(slot_ms, lists.len(), i);
            let k = choose|k: int|
                0 <= k < notes.len() && x.event == (ChainEvent::Strike {
                    channel: 0,
                    key: #[trigger] notes[k],
                    velocity: velocities[i as int],
                });
            assert(lists[i as int].contains(x.event->Strike_key));
            assert(slot_ms as nat * i == slot_ms as int * i as int);
        }
    }
}

/// The track that is written for a chain plays the chain.
pub proof fn lemma_track_plays_chain(
    lists: Seq<Seq<u8>>,
    slot_ms: u32,
    hold_ms: u32,
    velocities: Seq<u8>,
)
    requires
        chain_fits(lists, slot_ms, hold_ms),
        velocities.len() >= lists.len(),
    ensures
        plays_chain(
            chain_steps(lists, slot_ms, hold_ms, velocities),
            lists,
            velocities,
            slot_ms as int,
            hold_ms as int,
        ),
        chain_steps(lists, slot_ms, hold_ms, velocities).len() == 2 * note_count(
            lists,
            lists.len(),
        ) + 2,
{
    let steps = chain_steps(lists, slot_ms, hold_ms, velocities);
    let raw = chain_events(lists, slot_ms, hold_ms, velocities, lists.len());
    let end = slot_ms * lists.len();
    lemma_chain_size(lists, slot_ms, hold_ms, velocities, lists.len());
    lemma_track_spans_chain(lists, slot_ms, hold_ms, velocities);
    lemma_first_stays(raw);
    lemma_track_keeps_ticks(lists, slot_ms, hold_ms, velocities, 0);
    assert forall|i: int, k: int|
        0 <= i < lists.len() && 0 <= k < lists[i].len() implies plays_note(
        steps,
        #[trigger] lists[i][k],
        velocities[i],
        slot_ms * i,
        if slot_ms * i + hold_ms < end {
            slot_ms * i + hold_ms
        } else {
            end
        },
    ) by {
        lemma_notes_fill_their_slot(lists, slot_ms, hold_ms, velocities, i as nat, k as nat);
    }
    assert forall|a: int| 0 <= a < steps.len() implies match (#[trigger] steps[a]).event {
        ChainEvent::Strike { channel, key, velocity } => channel == 0 && is_asked_for(
            lists,
            velocities,
            slot_ms as int,
            key,
            velocity,
            elapsed(steps, (a + 1) as nat) as int,
        ),
        _ => true,
    } by {
        if steps[a].event is Strike {
            assert(a < raw.len());
            lemma_track_keeps_ticks(lists, slot_ms, hold_ms, velocities, a);
            let x = in_order(raw)[a];
            lemma_ordered_came_in(raw, a);
            lemma_chain_strikes(lists, slot_ms, hold_ms, velocities, lists.len(), x);
        }
    }
}

/// How many events a chain has, and that the tempo is the first of them.
proof fn lemma_chain_size(
    lists: Seq<Seq<u8>>,
    slot_ms: u32,
    hold_ms: u32,
    velocities: Seq<u8>,
    n: nat,
)
    requires
        n <= lists.len(),
    ensures
        ({
            let events = chain_events(lists, slot_ms, hold_ms, velocities, n);
            &&& events.len() == 2 * note_count(lists, n) + 1
            &&& events[0] == (TimedEvent { tick: 0, event: ChainEvent::SetTempo(1_000_000) })
        }),
    decreases n,
{
    if n > 0 {
        let i = (n - 1) as nat;
        lemma_chain_size(lists, slot_ms, hold_ms, velocities, i);
        lemma_slot_size(
            lists[i as int],
            on_tick(slot_ms, i),
            off_tick(slot_ms, hold_ms, lists.len(), i),
            velocity_of(velocities, i),
            lists[i as int].len(),
        );
    }
}

/// How many events a slot has.
proof fn lemma_slot_size(notes: Seq<u8>, on: nat, off: nat, velocity: u8, n: nat)
    ensures
        slot_events(notes, on, off, velocity, n).len() == 2 * n,
    decreases n,
{
    if n > 0 {
        lemma_slot_size(notes, on, off, velocity, (n - 1) as nat);
    }
}

/// Lists of one note each hold as many notes as there are lists.
proof fn lemma_single_count(lists: Seq<Seq<u8>>, n: nat)
    requires
        n <= lists.len(),
        forall|i: int| 0 <= i < lists.len() ==> (#[trigger] lists[i]).len() == 1,
    ensures
        note_count(lists, n) == n,
    decreases n,
{
    if n > 0 {
        lemma_single_count(lists, (n - 1) as nat);
        assert(lists[n - 1].len() == 1);
    }
}

/// The track of a chain of single notes at one velocity strikes every one of them on
/// the boundary of its slot, exactly as hard as asked for, and nothing else.
pub proof fn lemma_single_notes_are_struck(
    notes: Seq<u8>,
    slot_ms: u32,
    hold_ms: u32,
    lists: Seq<Seq<u8>>,
    velocities: Seq<u8>,
    velocity: u8,
)
    requires
        chain_fits(lists, slot_ms, hold_ms),
        lists.len() == notes.len(),
        velocities.len() == notes.len(),
        forall|i: int| 0 <= i < notes.len() ==> #[trigger] lists[i] == seq![notes[i]],
        forall|i: int| 0 <= i < notes.len() ==> #[trigger] velocities[i] == velocity,
    ensures
        plays_singly(
            chain_steps(lists, slot_ms, hold_ms, velocities),
            notes,
            velocity,
            slot_ms as int,
            hold_ms as int,
        ),
{
    let steps = chain_steps(lists, slot_ms, hold_ms, velocities);
    let end = slot_ms * notes.len();
    lemma_track_plays_chain(lists, slot_ms, hold_ms, velocities);
    lemma_single_count(lists, lists.len());
    assert forall|i: int| 0 <= i < notes.len() implies plays_note(
        steps,
        #[trigger] notes[i],
        velocity,
        slot_ms * i,
        if slot_ms * i + hold_ms < end {
            slot_ms * i + hold_ms
        } else {
            end
        },
    ) by {
        assert(lists[i][0] == notes[i]);
        assert(velocities[i] == velocity);
    }
    assert forall|a: int|
        0 <= a < steps.len() && (#[trigger] steps[a]).event is Strike implies steps[a].event->Strike_velocity
        == velocity by {
        let at = elapsed(steps, (a + 1) as nat) as int;
        let key = steps[a].event->Strike_key;
        let hard = steps[a].event->Strike_velocity;
        assert(is_asked_for(lists, velocities, slot_ms as int, key, hard, at));
        let i = choose|i: int|
            0 <= i < lists.len() && (#[trigger] lists[i]).contains(key) && hard == velocities[i] && at
                == slot_ms * i;
        assert(velocities[i] == velocity);
    }
}

} // verus!
