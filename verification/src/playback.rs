//! How one slot is played, probed or measured: what is sent, for how long is
//! waited and when the notes are released.
use crate::level::Binary32;
use crate::number::{capped, Binary64};
use vstd::prelude::*;

verus! {

/// How long a playback waits at a time, in milliseconds.
pub const PLAY_CHUNK_MS: u64 = 50;

/// How long a probe waits at a time, in milliseconds.
pub const PROBE_CHUNK_MS: u64 = 25;

/// How long a released note stays quiet before its measurement ends, in
/// milliseconds.
pub const QUIET_MS: u64 = 400;

/// A length in whole milliseconds.
pub open spec fn wide_ms(length: Binary64) -> u64 {
    capped(length.scaled(1000), u64::MAX as nat) as u64
}

/// When the notes of a slot are released, in milliseconds: shortly before the end
/// where they are held as long as the slot, else after their length.
pub open spec fn release_time(note_length: Binary64, slot_length: Binary64) -> u64 {
    if note_length.at_least(slot_length) {
        if wide_ms(slot_length) > 100 {
            (wide_ms(slot_length) - 100) as u64
        } else {
            0
        }
    } else {
        wide_ms(note_length)
    }
}

/// The playback of one slot.
#[derive(Copy, Clone, Debug, PartialEq, Eq, Structural)]
pub struct Playback {
    /// How long the slot is, in milliseconds.
    pub slot_ms: u64,
    /// When its notes are released, in milliseconds.
    pub release_at: u64,
    /// How much has passed, in milliseconds.
    pub elapsed: u64,
    /// Whether the notes are released.
    pub released: bool,
}

/// What to do next in a playback: release the notes or not, then wait, and stop
/// or go on.
#[derive(Copy, Clone, Debug, PartialEq, Eq, Structural)]
pub struct PlayStep {
    /// Release the notes.
    pub release: bool,
    /// Wait so many milliseconds.
    pub wait_ms: u64,
    /// The slot is over.
    pub done: bool,
}

impl Playback {
    /// Whether the time that has passed is within the slot.
    pub open spec fn well_formed(self) -> bool {
        self.elapsed <= self.slot_ms
    }

    /// What is done next.
    pub open spec fn step(self, interrupted: bool) -> PlayStep {
        if self.elapsed >= self.slot_ms {
            PlayStep { release: !self.released, wait_ms: 0, done: true }
        } else if interrupted {
            PlayStep { release: true, wait_ms: 0, done: true }
        } else {
            PlayStep {
                release: !self.released && self.elapsed >= self.release_at,
                wait_ms: capped(
                    (self.slot_ms - self.elapsed) as nat,
                    PLAY_CHUNK_MS as nat,
                ) as u64,
                done: false,
            }
        }
    }

    /// The playback after a step.
    pub open spec fn stepped(self, interrupted: bool) -> Playback {
        let s = self.step(interrupted);
        Playback {
            slot_ms: self.slot_ms,
            release_at: self.release_at,
            elapsed: (self.elapsed + s.wait_ms) as u64,
            released: self.released || s.release,
        }
    }

    /// The playback of a slot whose notes have just been struck.
    pub fn start(note_length: Binary64, slot_length: Binary64) -> (r: Playback)
        requires
            note_length.is_positive(),
            slot_length.is_positive(),
        ensures
            r == (Playback {
                slot_ms: wide_ms(slot_length),
                release_at: release_time(note_length, slot_length),
                elapsed: 0,
                released: false,
            }),
            r.well_formed(),
    {
        let slot_ms: u64 = slot_length.scale(1000);
        let release_at: u64 = if note_length.reaches(slot_length) {
            if slot_ms > 100 {
                slot_ms - 100
            } else {
                0
            }
        } else {
            note_length.scale(1000)
        };
        Playback { slot_ms, release_at, elapsed: 0, released: false }
    }

    /// Takes the next step: on an interruption release the notes and stop.
    pub fn next(&mut self, interrupted: bool) -> (r: PlayStep)
        requires
            old(self).well_formed(),
        ensures
            r == old(self).step(interrupted),
            *final(self) == old(self).stepped(interrupted),
            final(self).well_formed(),
    {
        if self.elapsed >= self.slot_ms {
            let release: bool = !self.released;
            self.released = true;
            PlayStep { release, wait_ms: 0, done: true }
        } else if interrupted {
            self.released = true;
            PlayStep { release: true, wait_ms: 0, done: true }
        } else {
            let release: bool = !self.released && self.elapsed >= self.release_at;
            if release {
                self.released = true;
            }
            let left: u64 = self.slot_ms - self.elapsed;
            let wait_ms: u64 = if left < PLAY_CHUNK_MS {
                left
            } else {
                PLAY_CHUNK_MS
            };
            self.elapsed = self.elapsed + wait_ms;
            PlayStep { release, wait_ms, done: false }
        }
    }

    /// How long an uninterrupted playback still waits, in milliseconds.
    pub open spec fn waits_left(self) -> nat
        decreases self.slot_ms - self.elapsed,
    {
        if self.elapsed >= self.slot_ms {
            0
        } else {
            self.step(false).wait_ms as nat + self.stepped(false).waits_left()
        }
    }

    /// How often an uninterrupted playback still releases its notes.
    pub open spec fn releases_left(self) -> nat
        decreases self.slot_ms - self.elapsed,
    {
        let now = if self.step(false).release {
            1nat
        } else {
            0
        };
        if self.elapsed >= self.slot_ms {
            now
        } else {
            now + self.stepped(false).releases_left()
        }
    }

    /// An uninterrupted playback waits exactly as long as its slot and releases
    /// its notes exactly once.
    pub proof fn lemma_plays_whole_slot(self)
        requires
            self.well_formed(),
        ensures
            self.waits_left() == self.slot_ms - self.elapsed,
            self.releases_left() == (if self.released {
                0nat
            } else {
                1
            }),
        decreases self.slot_ms - self.elapsed,
    {
        if self.elapsed < self.slot_ms {
            self.stepped(false).lemma_plays_whole_slot();
        }
    }

    /// A playback releases its notes at the first step at which their time has come, and
    /// not before that: after the length of the notes, or a tenth of a second before the
    /// end of the slot where they are held as long as the slot.
    pub proof fn lemma_notes_are_held(self, note_length: Binary64, slot_length: Binary64)
        requires
            self.release_at == release_time(note_length, slot_length),
            self.slot_ms == wide_ms(slot_length),
            self.elapsed < self.slot_ms,
            !self.released,
        ensures
            !note_length.at_least(slot_length) ==> (self.step(false).release <==> self.elapsed
                >= wide_ms(note_length)),
            note_length.at_least(slot_length) ==> (self.step(false).release <==> self.elapsed + 100
                >= self.slot_ms),
            0 < self.step(false).wait_ms <= 50,
    {
    }

    /// However a playback ends, its notes are released by then; an interruption
    /// releases them at once.
    pub proof fn lemma_ends_released(self, interrupted: bool)
        ensures
            self.step(interrupted).done ==> self.stepped(interrupted).released,
            interrupted && self.elapsed < self.slot_ms ==> self.step(interrupted).release
                && self.step(interrupted).done,
    {
    }
}

/// What is left to wait of a probe, a chunk at a time; nothing on an interruption.
pub open spec fn probe_wait(probe_ms: u64, elapsed: u64, interrupted: bool) -> Option<u64> {
    if elapsed >= probe_ms || interrupted {
        None
    } else {
        Some(capped((probe_ms - elapsed) as nat, PROBE_CHUNK_MS as nat) as u64)
    }
}

/// How long to wait next while a note is probed: `None` when its time is over or
/// on an interruption.
pub fn next_probe_wait(probe_ms: u64, elapsed: u64, interrupted: bool) -> (r: Option<u64>)
    ensures
        r == probe_wait(probe_ms, elapsed, interrupted),
        r matches Some(ms) ==> 0 < ms <= PROBE_CHUNK_MS && elapsed + ms <= probe_ms,
{
    if elapsed >= probe_ms || interrupted {
        None
    } else {
        let left: u64 = probe_ms - elapsed;
        Some(
            if left < PROBE_CHUNK_MS {
                left
            } else {
                PROBE_CHUNK_MS
            },
        )
    }
}

/// The measurement of one note's ring-out.
#[derive(Copy, Clone, Debug, PartialEq, Eq, Structural)]
pub struct Measurement {
    /// How long it lasts at most, in milliseconds.
    pub max_ms: u64,
    /// How long the note is held, in milliseconds.
    pub hold_ms: u64,
    /// How much has passed, in milliseconds.
    pub elapsed: u64,
    /// Whether the note is released.
    pub released: bool,
    /// How long the released note has been quiet, in milliseconds.
    pub quiet_ms: u64,
}

/// What to do next in a measurement: release the note or not, then wait, then
/// listen or not, and stop or go on.
#[derive(Copy, Clone, Debug, PartialEq, Eq, Structural)]
pub struct MeasureStep {
    /// Release the note.
    pub release: bool,
    /// Wait so many milliseconds.
    pub wait_ms: u64,
    /// Tell afterwards whether the note is quiet.
    pub listen: bool,
    /// The measurement is over.
    pub done: bool,
}

impl Measurement {
    /// Whether the measurement is within its time, and quiet for no longer than it
    /// has lasted.
    pub open spec fn well_formed(self) -> bool {
        self.quiet_ms <= self.elapsed <= self.max_ms
    }

    /// Whether the note has been quiet long enough.
    pub open spec fn rang_out(self) -> bool {
        self.released && self.quiet_ms >= QUIET_MS
    }

    /// What is done next.
    pub open spec fn step(self, interrupted: bool) -> MeasureStep {
        if self.elapsed >= self.max_ms || self.rang_out() || interrupted {
            MeasureStep { release: !self.released, wait_ms: 0, listen: false, done: true }
        } else {
            let release = !self.released && self.elapsed >= self.hold_ms;
            MeasureStep {
                release,
                wait_ms: capped((self.max_ms - self.elapsed) as nat, PLAY_CHUNK_MS as nat) as u64,
                listen: self.released || release,
                done: false,
            }
        }
    }

    /// The measurement after a step; `quiet` is what was heard after it.
    pub open spec fn stepped(self, interrupted: bool, quiet: bool) -> Measurement {
        let s = self.step(interrupted);
        Measurement {
            max_ms: self.max_ms,
            hold_ms: self.hold_ms,
            elapsed: (self.elapsed + s.wait_ms) as u64,
            released: self.released || s.release,
            quiet_ms: if !s.listen {
                self.quiet_ms
            } else if quiet {
                (self.quiet_ms + s.wait_ms) as u64
            } else {
                0
            },
        }
    }

    /// The measurement of a note that has just been struck.
    pub fn start(note_length: Binary64, max_slot_length: Binary64) -> (r: Measurement)
        requires
            note_length.is_positive(),
            max_slot_length.is_positive(),
        ensures
            r == (Measurement {
                max_ms: wide_ms(max_slot_length),
                hold_ms: wide_ms(note_length),
                elapsed: 0,
                released: false,
                quiet_ms: 0,
            }),
            r.well_formed(),
    {
        Measurement {
            max_ms: max_slot_length.scale(1000),
            hold_ms: note_length.scale(1000),
            elapsed: 0,
            released: false,
            quiet_ms: 0,
        }
    }

    /// What to do next: stop when the time is up, when the note has been quiet for
    /// long enough after its release, or on an interruption.
    pub fn next(&self, interrupted: bool) -> (r: MeasureStep)
        requires
            self.well_formed(),
        ensures
            r == self.step(interrupted),
    {
        if self.elapsed >= self.max_ms || (self.released && self.quiet_ms >= QUIET_MS)
            || interrupted {
            MeasureStep { release: !self.released, wait_ms: 0, listen: false, done: true }
        } else {
            let release: bool = !self.released && self.elapsed >= self.hold_ms;
            let left: u64 = self.max_ms - self.elapsed;
            let wait_ms: u64 = if left < PLAY_CHUNK_MS {
                left
            } else {
                PLAY_CHUNK_MS
            };
            MeasureStep { release, wait_ms, listen: self.released || release, done: false }
        }
    }

    /// Goes on after a step that was not interrupted; `quiet` is what was heard
    /// after it, where it asked to listen.
    pub fn advance(&mut self, quiet: bool)
        requires
            old(self).well_formed(),
        ensures
            *final(self) == old(self).stepped(false, quiet),
            final(self).well_formed(),
    {
        let s = self.next(false);
        self.elapsed = self.elapsed + s.wait_ms;
        self.released = self.released || s.release;
        if s.listen {
            self.quiet_ms = if quiet {
                self.quiet_ms + s.wait_ms
            } else {
                0
            };
        }
    }

    /// However a measurement ends, its note is released by then; without an
    /// interruption each step that does not end it takes time.
    pub proof fn lemma_ends_released(self, interrupted: bool, quiet: bool)
        requires
            self.well_formed(),
        ensures
            self.step(interrupted).done ==> self.stepped(interrupted, quiet).released,
            !self.step(interrupted).done ==> self.stepped(interrupted, quiet).elapsed > self.elapsed,
            self.released ==> !self.step(interrupted).release,
    {
    }
}

/// Whether a level is below the one at which a tail counts as silent.
pub fn is_quiet(tail: Binary32, decay_threshold: Binary32) -> (r: bool)
    ensures
        r == (!tail.is_nan() && !decay_threshold.is_nan() && tail.rank() < decay_threshold.rank()),
{
    let above: bool = tail.reaches(decay_threshold);
    let comparable: bool = tail.bits % 0x8000_0000 <= 0x7F80_0000 && decay_threshold.bits % 0x8000_0000
        <= 0x7F80_0000;
    comparable && !above
}

/// The frames of the tail that is listened to, 150 ms.
pub fn tail_window(native_rate: u32) -> (r: u64)
    ensures
        r == capped(
            (Binary64 { bits: 0x3FC3_3333_3333_3333 }).scaled(native_rate as nat),
            u64::MAX as nat,
        ),
{
    Binary64 { bits: 0x3FC3_3333_3333_3333 }.scale(native_rate)
}

/// A MIDI message of three bytes.
#[derive(Copy, Clone, Debug, PartialEq, Eq, Structural)]
pub struct Message {
    /// The kind and the channel.
    pub status: u8,
    /// The note, or the controller.
    pub first: u8,
    /// The velocity, or the value.
    pub second: u8,
}

/// The messages that strike some notes together on channel 1 to 16.
pub open spec fn strike_messages(channel: u8, notes: Seq<u8>, velocity: u8) -> Seq<Message> {
    notes.map_values(
        |n: u8| Message { status: (0x90 + channel - 1) as u8, first: n, second: velocity },
    )
}

/// The messages that release some notes on channel 1 to 16.
pub open spec fn release_messages(channel: u8, notes: Seq<u8>) -> Seq<Message> {
    notes.map_values(|n: u8| Message { status: (0x80 + channel - 1) as u8, first: n, second: 0 })
}

/// The same message for every note.
fn for_each_note(status: u8, notes: &[u8], second: u8) -> (r: Vec<Message>)
    ensures
        r@ == notes@.map_values(|n: u8| Message { status, first: n, second }),
{
    let mut out: Vec<Message> = Vec::new();
    let mut i: usize = 0;
    while i < notes.len()
        invariant
            i <= notes.len(),
            out@ =~= notes@.take(i as int).map_values(|n: u8| Message { status, first: n, second }),
        decreases notes.len() - i,
    {
        out.push(Message { status, first: notes[i], second });
        i += 1;
    }
    assert(notes@.take(i as int) =~= notes@);
    out
}

/// Note On for every note.
pub fn strike(channel: u8, notes: &[u8], velocity: u8) -> (r: Vec<Message>)
    requires
        1 <= channel <= 16,
    ensures
        r@ == strike_messages(channel, notes@, velocity),
        r.len() == notes.len(),
        forall|i: int|
            0 <= i < notes@.len() ==> #[trigger] r@[i] == (Message {
                status: (0x8F + channel) as u8,
                first: notes@[i],
                second: velocity,
            }),
{
    let out = for_each_note(0x90 + (channel - 1), notes, velocity);
    assert(out@ =~= strike_messages(channel, notes@, velocity));
    out
}

/// Note Off for every note.
pub fn release(channel: u8, notes: &[u8]) -> (r: Vec<Message>)
    requires
        1 <= channel <= 16,
    ensures
        r@ == release_messages(channel, notes@),
        r.len() == notes.len(),
        forall|i: int|
            0 <= i < notes@.len() ==> #[trigger] r@[i] == (Message {
                status: (0x7F + channel) as u8,
                first: notes@[i],
                second: 0,
            }),
{
    let out = for_each_note(0x80 + (channel - 1), notes, 0);
    assert(out@ =~= release_messages(channel, notes@));
    out
}

/// Note Off for every note there is, then All Notes Off.
pub open spec fn silence_messages(channel: u8) -> Seq<Message> {
    Seq::new(
        128,
        |n: int| Message { status: (0x80 + channel - 1) as u8, first: n as u8, second: 0 },
    ).push(Message { status: (0xB0 + channel - 1) as u8, first: 123, second: 0 })
}

/// Note Off for every note plus an All-Notes-Off controller, so nothing sticks.
pub fn all_notes_off(channel: u8) -> (r: Vec<Message>)
    requires
        1 <= channel <= 16,
    ensures
        r@ == silence_messages(channel),
        forall|n: int|
            0 <= n < 128 ==> #[trigger] r@[n] == (Message {
                status: (0x7F + channel) as u8,
                first: n as u8,
                second: 0,
            }),
        r@[128] == (Message { status: (0xAF + channel) as u8, first: 123, second: 0 }),
        r.len() == 129,
{
    let mut out: Vec<Message> = Vec::new();
    let mut n: u8 = 0;
    while n < 128
        invariant
            n <= 128,
            1 <= channel <= 16,
            out@ =~= silence_messages(channel).take(n as int),
        decreases 128 - n,
    {
        out.push(Message { status: 0x80 + (channel - 1), first: n, second: 0 });
        n += 1;
    }
    out.push(Message { status: 0xB0 + (channel - 1), first: 123, second: 0 });
    assert(out@ =~= silence_messages(channel));
    out
}

} // verus!
