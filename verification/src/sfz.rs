//! The MIDI file of an offline chain: every slot's notes on its boundary, the
//! end of the track on the last one.
use crate::sfz::ChainEvent::{EndTrack, Release, SetTempo, Strike};
use crate::slots::Slot;
use crate::tracks::{is_file_of, lemma_track_plays_chain, plays_chain, slot_notes};
use midly::Format::SingleTrack;
use midly::MetaMessage::{EndOfTrack, Tempo};
use midly::MidiMessage::{NoteOff, NoteOn};
use midly::Timing::Metrical;
use midly::TrackEventKind::{Meta, Midi};
use midly::{Header, Smf, TrackEvent};
use vstd::prelude::*;

verus! {

/// Pulses per quarter note. With one quarter per second, a tick is a
/// millisecond.
pub const PPQ: u16 = 1000;

/// Microseconds per quarter note: one second.
pub const TEMPO_US_PER_QUARTER: u32 = 1_000_000;

/// What happens at one moment of a chain.
#[derive(Copy, Clone, Debug, PartialEq, Eq, Structural)]
pub enum ChainEvent {
    /// The tempo, in microseconds per quarter note.
    SetTempo(u32),
    /// A note starts.
    Strike {
        /// The MIDI channel, from 0.
        channel: u8,
        /// The MIDI note.
        key: u8,
        /// How hard it is struck.
        velocity: u8,
    },
    /// A note ends.
    Release {
        /// The MIDI channel, from 0.
        channel: u8,
        /// The MIDI note.
        key: u8,
        /// How hard it is released.
        velocity: u8,
    },
    /// The track ends.
    EndTrack,
}

/// The start of a note.
pub open spec fn struck(key: u8, velocity: u8) -> ChainEvent {
    ChainEvent::Strike { channel: 0, key, velocity }
}

/// The end of a note.
pub open spec fn released(key: u8) -> ChainEvent {
    ChainEvent::Release { channel: 0, key, velocity: 0 }
}

/// An event at a tick counted from the start of the chain.
#[derive(Copy, Clone, Debug, PartialEq, Eq, Structural)]
pub struct TimedEvent {
    /// Ticks since the start.
    pub tick: u32,
    /// What happens.
    pub event: ChainEvent,
}

/// An event at a tick counted from the event before it.
#[derive(Copy, Clone, Debug, PartialEq, Eq, Structural)]
pub struct TrackStep {
    /// Ticks since the event before.
    pub delta: u32,
    /// What happens.
    pub event: ChainEvent,
}

impl TimedEvent {
    /// The rank among events of one tick: a start comes after everything else.
    pub open spec fn rank(self) -> nat {
        if self.event is Strike {
            1
        } else {
            0
        }
    }

    /// Whether this event stands before another, or on a par with it.
    pub open spec fn not_after(self, other: TimedEvent) -> bool {
        self.tick < other.tick || (self.tick == other.tick && self.rank() <= other.rank())
    }

    /// Whether this event stands before `other`, or on a par with it.
    fn is_not_after(self, other: TimedEvent) -> (r: bool)
        ensures
            r == self.not_after(other),
    {
        let first: u8 = match self.event {
            ChainEvent::Strike { channel: _, key: _, velocity: _ } => 1,
            _ => 0,
        };
        let second: u8 = match other.event {
            ChainEvent::Strike { channel: _, key: _, velocity: _ } => 1,
            _ => 0,
        };
        self.tick < other.tick || (self.tick == other.tick && first <= second)
    }
}

/// The note lists of some slots.
pub open spec fn note_lists(slots: Seq<Slot>) -> Seq<Seq<u8>> {
    slots.map_values(|s: Slot| s.notes@)
}

/// How many notes the first `n` lists hold together.
pub open spec fn note_count(lists: Seq<Seq<u8>>, n: nat) -> nat
    decreases n,
{
    if n == 0 {
        0
    } else {
        note_count(lists, (n - 1) as nat) + lists[n - 1].len()
    }
}

/// Where a slot starts, in ticks.
pub open spec fn on_tick(slot_ms: u32, i: nat) -> nat {
    slot_ms as nat * i
}

/// Where the notes of a slot end, in ticks: after the hold, or at the end of the
/// chain.
pub open spec fn off_tick(slot_ms: u32, note_len_ms: u32, slots: nat, i: nat) -> nat {
    let off = on_tick(slot_ms, i) + note_len_ms as nat;
    if off < on_tick(slot_ms, slots) {
        off
    } else {
        on_tick(slot_ms, slots)
    }
}

/// The velocity of a slot: the listed one, or 100.
pub open spec fn velocity_of(velocities: Seq<u8>, i: nat) -> u8 {
    if i < velocities.len() {
        velocities[i as int]
    } else {
        100
    }
}

/// The starts and ends of the first `n` notes of one slot.
pub open spec fn slot_events(notes: Seq<u8>, on: nat, off: nat, velocity: u8, n: nat) -> Seq<
    TimedEvent,
>
    decreases n,
{
    if n == 0 {
        Seq::empty()
    } else {
        slot_events(notes, on, off, velocity, (n - 1) as nat).push(
            TimedEvent {
                tick: on as u32,
                event: struck(notes[n - 1], velocity),
            },
        ).push(TimedEvent { tick: off as u32, event: released(notes[n - 1]) })
    }
}

/// The tempo and the events of the first `n` slots, slot by slot.
pub open spec fn chain_events(
    lists: Seq<Seq<u8>>,
    slot_ms: u32,
    note_len_ms: u32,
    velocities: Seq<u8>,
    n: nat,
) -> Seq<TimedEvent>
    decreases n,
{
    if n == 0 {
        seq![TimedEvent { tick: 0, event: ChainEvent::SetTempo(TEMPO_US_PER_QUARTER) }]
    } else {
        let i = (n - 1) as nat;
        chain_events(lists, slot_ms, note_len_ms, velocities, i) + slot_events(
            lists[i as int],
            on_tick(slot_ms, i),
            off_tick(slot_ms, note_len_ms, lists.len(), i),
            velocity_of(velocities, i),
            lists[i as int].len(),
        )
    }
}

/// An event put into ordered ones, behind all that stand before it or on a par
/// with it.
pub open spec fn inserted(events: Seq<TimedEvent>, e: TimedEvent) -> Seq<TimedEvent>
    decreases events.len(),
{
    if events.len() == 0 || events.last().not_after(e) {
        events.push(e)
    } else {
        inserted(events.drop_last(), e).push(events.last())
    }
}

/// Events in the order of their ticks, ends before starts, and otherwise as they
/// came.
pub open spec fn in_order(events: Seq<TimedEvent>) -> Seq<TimedEvent>
    decreases events.len(),
{
    if events.len() == 0 {
        Seq::empty()
    } else {
        inserted(in_order(events.drop_last()), events.last())
    }
}

/// Ordered events, each timed from the one before it, and the end of the track
/// at `total`.
pub open spec fn as_track(events: Seq<TimedEvent>, total: nat) -> Seq<TrackStep> {
    Seq::new(
        events.len(),
        |i: int|
            TrackStep {
                delta: (events[i].tick - (if i == 0 {
                    0
                } else {
                    events[i - 1].tick as int
                })) as u32,
                event: events[i].event,
            },
    ).push(
        TrackStep {
            delta: (total - (if events.len() == 0 {
                0
            } else {
                events.last().tick as int
            })) as u32,
            event: ChainEvent::EndTrack,
        },
    )
}

/// The track of a whole chain.
pub open spec fn chain_steps(
    lists: Seq<Seq<u8>>,
    slot_ms: u32,
    note_len_ms: u32,
    velocities: Seq<u8>,
) -> Seq<TrackStep> {
    as_track(
        in_order(chain_events(lists, slot_ms, note_len_ms, velocities, lists.len())),
        on_tick(slot_ms, lists.len()),
    )
}

/// Whether every tick of a chain fits 32 bits, and its track the length field of
/// a MIDI file, at ten bytes for each step.
pub open spec fn chain_fits(lists: Seq<Seq<u8>>, slot_ms: u32, note_len_ms: u32) -> bool {
    &&& on_tick(slot_ms, lists.len()) <= u32::MAX
    &&& lists.len() > 0 ==> on_tick(slot_ms, (lists.len() - 1) as nat) + note_len_ms <= u32::MAX
    &&& 2 * note_count(lists, lists.len()) + 2 <= 0x1999_9999
}

/// The bytes that `Smf::write_std` writes for a file of one track with these
/// steps, at so many ticks per quarter note.
pub uninterp spec fn smf_bytes(ppq: u16, steps: Seq<TrackStep>) -> Seq<u8>;

/// `Smf::write_std` on a file of one track into memory: what it writes is set by
/// the ticks per quarter note and the track. It fails only where the track takes
/// more than `u32::MAX` bytes; a step takes at most ten.
#[verifier::external_body]
fn write_smf(ppq: u16, steps: &Vec<TrackStep>) -> (r: Vec<u8>)
    requires
        steps.len() <= 0x1999_9999,
    ensures
        r@ == smf_bytes(ppq, steps@),
{
    let track = steps.iter().map(|s| TrackEvent {
        delta: s.delta.into(),
        kind: match s.event {
            SetTempo(us) => Meta(Tempo(us.into())),
            Strike { channel, key, velocity } => Midi { channel: channel.into(), message: NoteOn { key: key.into(), vel: velocity.into() } },
            Release { channel, key, velocity } => Midi { channel: channel.into(), message: NoteOff { key: key.into(), vel: velocity.into() } },
            EndTrack => Meta(EndOfTrack)
        }
    });
    let mut buf = Vec::new();
    Smf { header: Header::new(SingleTrack, Metrical(ppq.into())), tracks: vec![track.collect()] }.write_std(&mut buf).unwrap();
    buf
}

/// Whether no event stands before one that precedes it.
pub open spec fn is_ordered(events: Seq<TimedEvent>) -> bool {
    forall|i: int, j: int| 0 <= i <= j < events.len() ==> events[i].not_after(events[j])
}

/// Putting an event into ordered ones keeps them ordered and their ticks within
/// a bound.
pub(crate) proof fn lemma_inserted(events: Seq<TimedEvent>, e: TimedEvent, bound: nat)
    requires
        is_ordered(events),
        forall|i: int| 0 <= i < events.len() ==> events[i].tick <= bound,
        e.tick <= bound,
    ensures
        is_ordered(inserted(events, e)),
        inserted(events, e).len() == events.len() + 1,
        forall|i: int| 0 <= i < inserted(events, e).len() ==> inserted(events, e)[i].tick <= bound,
        forall|i: int|
            0 <= i < inserted(events, e).len() ==> inserted(events, e)[i] == e || exists|j: int|
                0 <= j < events.len() && events[j] == #[trigger] inserted(events, e)[i],
    decreases events.len(),
{
    let all = inserted(events, e);
    if events.len() == 0 || events.last().not_after(e) {
        assert forall|i: int| 0 <= i < all.len() implies all[i] == e || exists|j: int|
            0 <= j < events.len() && events[j] == #[trigger] all[i] by {
            if i < events.len() {
                assert(events[i] == all[i]);
            }
        }
        assert forall|i: int, j: int| 0 <= i <= j < all.len() implies all[i].not_after(all[j]) by {
            if i < events.len() {
                assert(events[i].not_after(events[events.len() - 1]));
                if j < events.len() {
                    assert(events[i].not_after(events[j]));
                }
            }
        }
    } else {
        let front = events.drop_last();
        lemma_inserted(front, e, bound);
        let most = inserted(front, e);
        assert forall|i: int| 0 <= i < all.len() implies all[i] == e || exists|j: int|
            0 <= j < events.len() && events[j] == #[trigger] all[i] by {
            if i < most.len() {
                assert(all[i] == most[i]);
                if most[i] != e {
                    let j = choose|j: int| 0 <= j < front.len() && front[j] == most[i];
                    assert(events[j] == all[i]);
                }
            } else {
                assert(events[events.len() - 1] == all[i]);
            }
        }
        assert forall|i: int, j: int| 0 <= i <= j < all.len() implies all[i].not_after(all[j]) by {
            if j < most.len() {
                assert(all[i] == most[i] && all[j] == most[j]);
            } else if i < most.len() {
                assert(all[i] == most[i]);
                if most[i] != e {
                    let k = choose|k: int| 0 <= k < front.len() && front[k] == most[i];
                    assert(events[k].not_after(events.last()));
                }
            }
        }
    }
}

/// Where an event is to be put: behind the last one that it does not precede.
proof fn lemma_insert_position(events: Seq<TimedEvent>, e: TimedEvent, pos: nat)
    requires
        pos <= events.len(),
        pos > 0 ==> events[pos - 1].not_after(e),
        forall|j: int| pos <= j < events.len() ==> !events[j].not_after(e),
    ensures
        inserted(events, e) == events.insert(pos as int, e),
    decreases events.len(),
{
    if pos == events.len() {
        assert(events.insert(pos as int, e) =~= events.push(e));
    } else {
        let front = events.drop_last();
        lemma_insert_position(front, e, pos);
        assert(events.insert(pos as int, e) =~= front.insert(pos as int, e).push(events.last()));
    }
}

/// Putting events in order leaves them ordered and their ticks within a bound.
pub(crate) proof fn lemma_in_order(events: Seq<TimedEvent>, bound: nat)
    requires
        forall|i: int| 0 <= i < events.len() ==> events[i].tick <= bound,
    ensures
        is_ordered(in_order(events)),
        in_order(events).len() == events.len(),
        forall|i: int| 0 <= i < events.len() ==> (#[trigger] in_order(events)[i]).tick <= bound,
    decreases events.len(),
{
    if events.len() > 0 {
        lemma_in_order(events.drop_last(), bound);
        lemma_inserted(in_order(events.drop_last()), events.last(), bound);
    }
}

/// Puts an event into ordered ones.
fn insert_event(events: &mut Vec<TimedEvent>, e: TimedEvent)
    ensures
        final(events)@ == inserted(old(events)@, e),
{
    let mut pos: usize = events.len();
    while pos > 0 && !events[pos - 1].is_not_after(e)
        invariant
            pos <= events.len(),
            forall|j: int| pos <= j < events.len() ==> !events[j].not_after(e),
        decreases pos,
    {
        pos -= 1;
    }
    proof {
        lemma_insert_position(events@, e, pos as nat);
    }
    events.insert(pos, e);
}

/// The tick of a slot's start lies within the chain.
pub(crate) proof fn lemma_ticks(slot_ms: u32, slots: nat, i: nat)
    requires
        i < slots,
    ensures
        on_tick(slot_ms, i) <= on_tick(slot_ms, (slots - 1) as nat) <= on_tick(slot_ms, slots),
{
    assert(slot_ms as nat * i <= slot_ms as nat * ((slots - 1) as nat)) by (nonlinear_arith)
        requires
            i <= slots - 1,
    ;
    assert(slot_ms as nat * ((slots - 1) as nat) <= slot_ms as nat * slots) by (nonlinear_arith)
        requires
            slots >= 1,
    ;
}

/// The notes of fewer lists are no more.
proof fn lemma_note_count(lists: Seq<Seq<u8>>, n: nat, m: nat)
    requires
        n <= m,
    ensures
        note_count(lists, n) <= note_count(lists, m),
    decreases m,
{
    if n < m {
        lemma_note_count(lists, n, (m - 1) as nat);
    }
}

/// Author the single track of a whole chain: sound each slot's notes at that
/// slot's boundary, hold them for `note_len_ms`, and end the track at the last
/// slot boundary so that the rendered chain spans exactly its length.
///
/// `velocities[i]` is the note-on velocity for slot `i`, shared by the notes of a
/// chord. `slot_ms` is the slot length in milliseconds.
pub fn chain_track(slots: &Vec<Slot>, slot_ms: u32, note_len_ms: u32, velocities: &[u8]) -> (r: Vec<
    TrackStep,
>)
    requires
        chain_fits(note_lists(slots@), slot_ms, note_len_ms),
    ensures
        r@ == chain_steps(note_lists(slots@), slot_ms, note_len_ms, velocities@),
        r.len() == 2 * note_count(note_lists(slots@), slots.len() as nat) + 2,
        velocities.len() >= slots.len() ==> plays_chain(
            r@,
            slot_notes(slots@),
            velocities@,
            slot_ms as int,
            note_len_ms as int,
        ),
{
    let ghost lists = note_lists(slots@);
    let ghost n = slots.len() as nat;
    let ghost total = on_tick(slot_ms, n);
    proof {
        if slots.len() > 0 && slot_ms > 0 {
            assert(slot_ms * n >= n) by (nonlinear_arith)
                requires
                    slot_ms > 0,
            ;
        }
    }
    let mut events: Vec<TimedEvent> = Vec::new();
    let ghost mut raw: Seq<TimedEvent> = Seq::empty();
    let tempo = TimedEvent { tick: 0, event: ChainEvent::SetTempo(TEMPO_US_PER_QUARTER) };
    insert_event(&mut events, tempo);
    proof {
        raw = raw.push(tempo);
        assert(raw.drop_last() =~= Seq::<TimedEvent>::empty());
        assert(in_order(raw.drop_last()) =~= Seq::<TimedEvent>::empty());
        assert(raw =~= chain_events(lists, slot_ms, note_len_ms, velocities@, 0));
    }
    let total_ms: u32 = slot_tick(slot_ms, slots.len());
    let mut i: usize = 0;
    while i < slots.len()
        invariant
            i <= slots.len(),
            n == slots.len(),
            lists == note_lists(slots@),
            chain_fits(lists, slot_ms, note_len_ms),
            total_ms == on_tick(slot_ms, n),
            raw == chain_events(lists, slot_ms, note_len_ms, velocities@, i as nat),
            raw.len() == 2 * note_count(lists, i as nat) + 1,
            forall|k: int| 0 <= k < raw.len() ==> raw[k].tick <= total_ms,
            events@ == in_order(raw),
        decreases slots.len() - i,
    {
        proof {
            lemma_ticks(slot_ms, n, i as nat);
        }
        let on: u32 = slot_tick(slot_ms, i);
        let off: u32 = if on + note_len_ms < total_ms {
            on + note_len_ms
        } else {
            total_ms
        };
        let velocity: u8 = if i < velocities.len() {
            velocities[i]
        } else {
            100
        };
        let ghost before = raw;
        let ghost notes = slots[i as int].notes@;
        assert(lists[i as int] == notes);
        let mut k: usize = 0;
        while k < slots[i].notes.len()
            invariant
                i < slots.len(),
                k <= notes.len(),
                notes == slots[i as int].notes@,
                on <= total_ms,
                off <= total_ms,
                raw == before + slot_events(notes, on as nat, off as nat, velocity, k as nat),
                raw.len() == before.len() + 2 * k,
                forall|j: int| 0 <= j < raw.len() ==> raw[j].tick <= total_ms,
                events@ == in_order(raw),
            decreases notes.len() - k,
        {
            let key: u8 = slots[i].notes[k];
            let start = TimedEvent { tick: on, event: ChainEvent::Strike { channel: 0, key, velocity } };
            let end = TimedEvent { tick: off, event: ChainEvent::Release { channel: 0, key, velocity: 0 } };
            insert_event(&mut events, start);
            insert_event(&mut events, end);
            proof {
                let old_raw = raw;
                let half = old_raw.push(start);
                assert(half.drop_last() =~= old_raw);
                assert(in_order(half) == inserted(in_order(old_raw), start));
                raw = half.push(end);
                assert(raw.drop_last() =~= half);
                assert(in_order(raw) == inserted(in_order(half), end));
                assert(raw =~= before + slot_events(
                    notes,
                    on as nat,
                    off as nat,
                    velocity,
                    (k + 1) as nat,
                ));
            }
            k += 1;
        }
        i += 1;
    }
    proof {
        lemma_in_order(raw, total_ms as nat);
    }
    let mut steps: Vec<TrackStep> = Vec::new();
    let mut prev: u32 = 0;
    let mut j: usize = 0;
    let ghost whole = as_track(events@, total_ms as nat);
    while j < events.len()
        invariant
            j <= events.len(),
            is_ordered(events@),
            forall|q: int| 0 <= q < events.len() ==> (#[trigger] events[q]).tick <= total_ms,
            prev == (if j == 0 {
                0
            } else {
                events[j - 1].tick
            }),
            prev <= total_ms,
            whole == as_track(events@, total_ms as nat),
            steps@ =~= whole.take(j as int),
        decreases events.len() - j,
    {
        let e = events[j];
        proof {
            if j > 0 {
                assert(events[j - 1].not_after(events[j as int]));
            }
            assert(whole.take(j + 1) =~= whole.take(j as int).push(whole[j as int]));
        }
        steps.push(TrackStep { delta: e.tick - prev, event: e.event });
        prev = e.tick;
        j += 1;
    }
    steps.push(TrackStep { delta: total_ms - prev, event: ChainEvent::EndTrack });
    assert(steps@ =~= whole);
    proof {
        if velocities.len() >= slots.len() {
            lemma_track_plays_chain(lists, slot_ms, note_len_ms, velocities@);
            assert(slot_notes(slots@) =~= lists);
        }
    }
    steps
}

/// Whether a chain can be written as a MIDI file.
pub fn fits_in_track(slots: &Vec<Slot>, slot_ms: u32, note_len_ms: u32) -> (r: bool)
    ensures
        r == chain_fits(note_lists(slots@), slot_ms, note_len_ms),
{
    let ghost lists = note_lists(slots@);
    let n: u128 = slots.len() as u128;
    proof {
        assert(slot_ms * n <= 0x1_0000_0000 * 0x1_0000_0000_0000_0000) by (nonlinear_arith)
            requires
                slot_ms < 0x1_0000_0000,
                n < 0x1_0000_0000_0000_0000,
        ;
    }
    if slot_ms as u128 * n > u32::MAX as u128 {
        return false;
    }
    if n > 0 {
        proof {
            lemma_ticks(slot_ms, slots.len() as nat, (slots.len() - 1) as nat);
        }
        let last: u128 = slot_ms as u128 * (n - 1);
        if last + note_len_ms as u128 > u32::MAX as u128 {
            return false;
        }
    }
    let mut count: u64 = 0;
    let mut i: usize = 0;
    while i < slots.len()
        invariant
            i <= slots.len(),
            lists == note_lists(slots@),
            count == note_count(lists, i as nat),
            2 * count + 2 <= 0x1999_9999,
        decreases slots.len() - i,
    {
        assert(lists[i as int] == slots[i as int].notes@);
        let more: u128 = count as u128 + slots[i].notes.len() as u128;
        if 2 * more + 2 > 0x1999_9999 {
            proof {
                lemma_note_count(lists, (i + 1) as nat, lists.len());
            }
            return false;
        }
        count = more as u64;
        i += 1;
    }
    true
}

/// Where slot `i` starts, in ticks.
fn slot_tick(slot_ms: u32, i: usize) -> (r: u32)
    requires
        on_tick(slot_ms, i as nat) <= u32::MAX,
    ensures
        r == on_tick(slot_ms, i as nat),
{
    if slot_ms == 0 {
        proof {
            assert(0nat * (i as nat) == 0);
        }
        0
    } else {
        proof {
            assert(slot_ms as nat * (i as nat) >= i) by (nonlinear_arith)
                requires
                    slot_ms > 0,
            ;
        }
        slot_ms * i as u32
    }
}

/// Author a single-track MIDI file for the whole chain.
pub fn build_chain_smf(slots: &Vec<Slot>, slot_ms: u32, note_len_ms: u32, velocities: &[u8]) -> (r:
    Vec<u8>)
    requires
        chain_fits(note_lists(slots@), slot_ms, note_len_ms),
    ensures
        r@ == smf_bytes(PPQ, chain_steps(note_lists(slots@), slot_ms, note_len_ms, velocities@)),
        velocities.len() >= slots.len() ==> is_file_of(
            r@,
            slot_notes(slots@),
            velocities@,
            slot_ms as int,
            note_len_ms as int,
        ),
{
    let steps = chain_track(slots, slot_ms, note_len_ms, velocities);
    write_smf(PPQ, &steps)
}

/// Picks the events of one tick and rank.
pub open spec fn falls_on(tick: u32, rank: nat) -> spec_fn(TimedEvent) -> bool {
    |x: TimedEvent| x.tick == tick && x.rank() == rank
}

/// Filtering a longer list decides on its last event alone.
proof fn lemma_filter_push(events: Seq<TimedEvent>, e: TimedEvent, p: spec_fn(TimedEvent) -> bool)
    ensures
        events.push(e).filter(p) == (if p(e) {
            events.filter(p).push(e)
        } else {
            events.filter(p)
        }),
{
    reveal(Seq::filter);
    assert(events.push(e).drop_last() =~= events);
}

/// Putting one event in keeps the events of each tick and rank in their order.
proof fn lemma_inserted_stable(events: Seq<TimedEvent>, e: TimedEvent, tick: u32, rank: nat)
    requires
        is_ordered(events),
    ensures
        inserted(events, e).filter(falls_on(tick, rank))
            == events.push(e).filter(falls_on(tick, rank)),
    decreases events.len(),
{
    let p = falls_on(tick, rank);
    if events.len() > 0 && !events.last().not_after(e) {
        let front = events.drop_last();
        let last = events.last();
        lemma_inserted_stable(front, e, tick, rank);
        lemma_filter_push(inserted(front, e), last, p);
        lemma_filter_push(front, e, p);
        lemma_filter_push(front, last, p);
        lemma_filter_push(events, e, p);
        assert(front.push(last) =~= events);
        // The last event does not stand before `e`, so at most one of them is kept.
        assert(!(p(e) && p(last)));
    }
}

/// Ordering a chain's events loses none, adds none and keeps the order of those
/// that fall on one tick with one rank: the events of each tick and rank are the
/// same list before and after.
pub proof fn lemma_order_is_stable(events: Seq<TimedEvent>, tick: u32, rank: nat)
    ensures
        in_order(events).filter(falls_on(tick, rank))
            == events.filter(falls_on(tick, rank)),
        in_order(events).len() == events.len(),
    decreases events.len(),
{
    let p = falls_on(tick, rank);
    lemma_in_order(events, u32::MAX as nat);
    if events.len() > 0 {
        let front = events.drop_last();
        lemma_order_is_stable(front, tick, rank);
        lemma_in_order(front, u32::MAX as nat);
        lemma_inserted_stable(in_order(front), events.last(), tick, rank);
        lemma_filter_push(in_order(front), events.last(), p);
        lemma_filter_push(front, events.last(), p);
        assert(front.push(events.last()) =~= events);
    }
}

/// In an ordered chain ticks never fall, and on one tick every end of a note
/// precedes every start.
pub proof fn lemma_ends_precede_starts(events: Seq<TimedEvent>, i: int, j: int)
    requires
        0 <= i < j < events.len(),
    ensures
        in_order(events)[i].tick <= in_order(events)[j].tick,
        in_order(events)[i].tick == in_order(events)[j].tick && in_order(events)[i].event is Strike
            ==> in_order(events)[j].event is Strike,
{
    lemma_in_order(events, u32::MAX as nat);
    assert(in_order(events)[i].not_after(in_order(events)[j]));
}

/// The ticks that have passed when the first `n` steps of a track are done.
pub open spec fn elapsed(steps: Seq<TrackStep>, n: nat) -> nat
    decreases n,
{
    if n == 0 {
        0
    } else {
        elapsed(steps, (n - 1) as nat) + steps[n - 1].delta as nat
    }
}

/// In a track made of ordered events each event happens at its own tick.
proof fn lemma_track_ticks(events: Seq<TimedEvent>, total: nat, n: nat)
    requires
        is_ordered(events),
        n <= events.len(),
        total <= u32::MAX,
        forall|i: int| 0 <= i < events.len() ==> events[i].tick <= total,
    ensures
        elapsed(as_track(events, total), n) == (if n == 0 {
            0
        } else {
            events[n - 1].tick as nat
        }),
    decreases n,
{
    if n > 0 {
        lemma_track_ticks(events, total, (n - 1) as nat);
        if n > 1 {
            assert(events[n - 2].not_after(events[n - 1]));
        }
    }
}

/// Every tick of the first `n` slots' events lies within the chain.
proof fn lemma_chain_ticks(
    lists: Seq<Seq<u8>>,
    slot_ms: u32,
    note_len_ms: u32,
    velocities: Seq<u8>,
    n: nat,
)
    requires
        chain_fits(lists, slot_ms, note_len_ms),
        n <= lists.len(),
    ensures
        forall|k: int|
            0 <= k < chain_events(lists, slot_ms, note_len_ms, velocities, n).len() ==> (
            #[trigger] chain_events(lists, slot_ms, note_len_ms, velocities, n)[k]).tick <= on_tick(
                slot_ms,
                lists.len(),
            ),
    decreases n,
{
    if n > 0 {
        let i = (n - 1) as nat;
        lemma_chain_ticks(lists, slot_ms, note_len_ms, velocities, i);
        lemma_ticks(slot_ms, lists.len(), i);
        lemma_slot_ticks(
            lists[i as int],
            on_tick(slot_ms, i),
            off_tick(slot_ms, note_len_ms, lists.len(), i),
            velocity_of(velocities, i),
            lists[i as int].len(),
            on_tick(slot_ms, lists.len()),
        );
    }
}

/// The events of one slot lie within a bound on its start and end.
proof fn lemma_slot_ticks(notes: Seq<u8>, on: nat, off: nat, velocity: u8, n: nat, bound: nat)
    requires
        on <= bound <= u32::MAX,
        off <= bound,
        n <= notes.len(),
    ensures
        slot_events(notes, on, off, velocity, n).len() == 2 * n,
        forall|k: int|
            0 <= k < 2 * n ==> (#[trigger] slot_events(notes, on, off, velocity, n)[k]).tick <= bound,
    decreases n,
{
    if n > 0 {
        lemma_slot_ticks(notes, on, off, velocity, (n - 1) as nat, bound);
    }
}

/// A chain's track lasts exactly its slots: the end of the track falls on the
/// last slot boundary.
pub proof fn lemma_track_spans_chain(
    lists: Seq<Seq<u8>>,
    slot_ms: u32,
    note_len_ms: u32,
    velocities: Seq<u8>,
)
    requires
        chain_fits(lists, slot_ms, note_len_ms),
    ensures
        ({
            let steps = chain_steps(lists, slot_ms, note_len_ms, velocities);
            &&& steps.last().event == ChainEvent::EndTrack
            &&& elapsed(steps, steps.len()) == slot_ms * lists.len()
        }),
{
    let raw = chain_events(lists, slot_ms, note_len_ms, velocities, lists.len());
    let total = on_tick(slot_ms, lists.len());
    lemma_chain_ticks(lists, slot_ms, note_len_ms, velocities, lists.len());
    lemma_in_order(raw, total);
    let events = in_order(raw);
    lemma_track_ticks(events, total, events.len());
}

/// Every event of a chain's track happens at its own tick: notes start on the
/// boundary of their slot, and all tones of a chord start together.
pub proof fn lemma_track_keeps_ticks(
    lists: Seq<Seq<u8>>,
    slot_ms: u32,
    note_len_ms: u32,
    velocities: Seq<u8>,
    k: int,
)
    requires
        chain_fits(lists, slot_ms, note_len_ms),
        0 <= k < chain_events(lists, slot_ms, note_len_ms, velocities, lists.len()).len(),
    ensures
        ({
            let events = in_order(
                chain_events(lists, slot_ms, note_len_ms, velocities, lists.len()),
            );
            let steps = chain_steps(lists, slot_ms, note_len_ms, velocities);
            &&& steps[k].event == events[k].event
            &&& elapsed(steps, (k + 1) as nat) == events[k].tick
        }),
{
    let raw = chain_events(lists, slot_ms, note_len_ms, velocities, lists.len());
    let total = on_tick(slot_ms, lists.len());
    lemma_chain_ticks(lists, slot_ms, note_len_ms, velocities, lists.len());
    lemma_in_order(raw, total);
    lemma_track_ticks(in_order(raw), total, (k + 1) as nat);
}

/// What is put in, and what was there before, is there afterwards.
proof fn lemma_inserted_contains(events: Seq<TimedEvent>, e: TimedEvent, x: TimedEvent)
    requires
        x == e || events.contains(x),
    ensures
        inserted(events, e).contains(x),
    decreases events.len(),
{
    let all = inserted(events, e);
    if events.len() == 0 || events.last().not_after(e) {
        if x == e {
            assert(all[events.len() as int] == x);
        } else {
            let k = choose|k: int| 0 <= k < events.len() && events[k] == x;
            assert(all[k] == x);
        }
    } else {
        let front = events.drop_last();
        if x == events.last() {
            assert(all.last() == x);
            assert(all[all.len() - 1] == x);
        } else {
            if x != e {
                let k = choose|k: int| 0 <= k < events.len() && events[k] == x;
                assert(front[k] == x);
            }
            lemma_inserted_contains(front, e, x);
            let k = choose|k: int| 0 <= k < inserted(front, e).len() && inserted(front, e)[k] == x;
            assert(all[k] == x);
        }
    }
}

/// Ordering keeps every event.
proof fn lemma_in_order_contains(events: Seq<TimedEvent>, x: TimedEvent)
    requires
        events.contains(x),
    ensures
        in_order(events).contains(x),
    decreases events.len(),
{
    let k = choose|k: int| 0 <= k < events.len() && events[k] == x;
    let front = events.drop_last();
    if k < front.len() {
        assert(front[k] == x);
        lemma_in_order_contains(front, x);
    }
    lemma_inserted_contains(in_order(front), events.last(), x);
}

/// The start and the end of a note are among the events of its slot.
proof fn lemma_slot_events_contain(
    notes: Seq<u8>,
    on: nat,
    off: nat,
    velocity: u8,
    n: nat,
    k: nat,
)
    requires
        k < n <= notes.len(),
    ensures
        slot_events(notes, on, off, velocity, n).contains(
            TimedEvent {
                tick: on as u32,
                event: struck(notes[k as int], velocity),
            },
        ),
        slot_events(notes, on, off, velocity, n).contains(
            TimedEvent { tick: off as u32, event: released(notes[k as int]) },
        ),
    decreases n,
{
    let all = slot_events(notes, on, off, velocity, n);
    let front = slot_events(notes, on, off, velocity, (n - 1) as nat);
    let start = TimedEvent {
        tick: on as u32,
        event: struck(notes[k as int], velocity),
    };
    let end = TimedEvent { tick: off as u32, event: released(notes[k as int]) };
    if k == n - 1 {
        assert(all[front.len() as int] == start);
        assert(all[front.len() as int + 1] == end);
    } else {
        lemma_slot_events_contain(notes, on, off, velocity, (n - 1) as nat, k);
        let a = choose|a: int| 0 <= a < front.len() && front[a] == start;
        let b = choose|b: int| 0 <= b < front.len() && front[b] == end;
        assert(all[a] == start);
        assert(all[b] == end);
    }
}

/// The events of a slot are among those of the chain.
proof fn lemma_chain_events_contain(
    lists: Seq<Seq<u8>>,
    slot_ms: u32,
    note_len_ms: u32,
    velocities: Seq<u8>,
    n: nat,
    i: nat,
    x: TimedEvent,
)
    requires
        i < n <= lists.len(),
        slot_events(
            lists[i as int],
            on_tick(slot_ms, i),
            off_tick(slot_ms, note_len_ms, lists.len(), i),
            velocity_of(velocities, i),
            lists[i as int].len(),
        ).contains(x),
    ensures
        chain_events(lists, slot_ms, note_len_ms, velocities, n).contains(x),
    decreases n,
{
    let all = chain_events(lists, slot_ms, note_len_ms, velocities, n);
    let front = chain_events(lists, slot_ms, note_len_ms, velocities, (n - 1) as nat);
    if i == n - 1 {
        let own = slot_events(
            lists[i as int],
            on_tick(slot_ms, i),
            off_tick(slot_ms, note_len_ms, lists.len(), i),
            velocity_of(velocities, i),
            lists[i as int].len(),
        );
        let k = choose|k: int| 0 <= k < own.len() && own[k] == x;
        assert(all[front.len() + k] == x);
    } else {
        lemma_chain_events_contain(
            lists,
            slot_ms,
            note_len_ms,
            velocities,
            (n - 1) as nat,
            i,
            x,
        );
        let k = choose|k: int| 0 <= k < front.len() && front[k] == x;
        assert(all[k] == x);
    }
}

/// Every note of every slot is struck on its slot's boundary with its slot's
/// velocity, and released after the hold or at the end of the chain.
pub proof fn lemma_notes_fill_their_slot(
    lists: Seq<Seq<u8>>,
    slot_ms: u32,
    note_len_ms: u32,
    velocities: Seq<u8>,
    i: nat,
    k: nat,
)
    requires
        chain_fits(lists, slot_ms, note_len_ms),
        i < lists.len(),
        k < lists[i as int].len(),
    ensures
        ({
            let steps = chain_steps(lists, slot_ms, note_len_ms, velocities);
            let key = lists[i as int][k as int];
            &&& exists|a: int|
                0 <= a < steps.len() && (#[trigger] steps[a]).event == struck(key, velocity_of(velocities, i)) && elapsed(steps, (a + 1) as nat) == on_tick(slot_ms, i)
            &&& exists|b: int|
                0 <= b < steps.len() && (#[trigger] steps[b]).event == released(key)
                    && elapsed(steps, (b + 1) as nat) == off_tick(
                    slot_ms,
                    note_len_ms,
                    lists.len(),
                    i,
                )
        }),
{
    let notes = lists[i as int];
    let on = on_tick(slot_ms, i);
    let off = off_tick(slot_ms, note_len_ms, lists.len(), i);
    let velocity = velocity_of(velocities, i);
    let raw = chain_events(lists, slot_ms, note_len_ms, velocities, lists.len());
    let steps = chain_steps(lists, slot_ms, note_len_ms, velocities);
    let start = TimedEvent {
        tick: on as u32,
        event: struck(notes[k as int], velocity),
    };
    let end = TimedEvent { tick: off as u32, event: released(notes[k as int]) };
    lemma_ticks(slot_ms, lists.len(), i);
    lemma_in_order(raw, u32::MAX as nat);
    lemma_slot_events_contain(notes, on, off, velocity, notes.len(), k);
    lemma_chain_events_contain(lists, slot_ms, note_len_ms, velocities, lists.len(), i, start);
    lemma_chain_events_contain(lists, slot_ms, note_len_ms, velocities, lists.len(), i, end);
    lemma_in_order_contains(raw, start);
    lemma_in_order_contains(raw, end);
    let a = choose|a: int| 0 <= a < in_order(raw).len() && in_order(raw)[a] == start;
    let b = choose|b: int| 0 <= b < in_order(raw).len() && in_order(raw)[b] == end;
    lemma_track_keeps_ticks(lists, slot_ms, note_len_ms, velocities, a);
    lemma_track_keeps_ticks(lists, slot_ms, note_len_ms, velocities, b);
    assert(steps[a].event == start.event);
    assert(steps[b].event == end.event);
}

} // verus!
