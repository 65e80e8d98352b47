//! What a live run hears before it records: which notes sound, and how long they
//! ring.
use crate::analysis::{
    are_tails, chosen_slot_length, clamped, lemma_chosen_length_covers_tails,
    lemma_longest_is_greatest, longest_among, longest_of, with_margin,
};
use crate::audio::{last_sound_seconds, tail_end};
use crate::cli::RenderArgs;
use crate::level::{is_sounding, peak, peak_abs, Binary32};
use crate::number::{Binary64, INFINITY};
use vstd::prelude::*;

verus! {

/// The probe of the slots of a chain, one after the other: how many there are, and
/// which of those that are done sound.
#[derive(Debug)]
pub struct ProbeLog {
    /// How many slots there are.
    pub slots: usize,
    /// The level from which a slot counts as sounding.
    pub threshold: Binary32,
    /// Whether each slot that is done sounds.
    pub flags: Vec<bool>,
}

/// Which of the slots sound, by what was captured of each: those whose peak reaches
/// the threshold. A slot that was not reached does not count as sounding.
pub open spec fn sounding_flags(
    captures: Seq<Seq<Binary32>>,
    threshold: Binary32,
    slots: nat,
) -> Seq<bool> {
    Seq::new(slots, |i: int| i < captures.len() && peak(captures[i]).at_least(threshold))
}

impl ProbeLog {
    /// Whether no more slots are done than there are.
    pub open spec fn well_formed(&self) -> bool {
        self.flags@.len() <= self.slots
    }

    /// Starts the probe of so many slots.
    pub fn start(slots: usize, threshold: Binary32) -> (r: ProbeLog)
        ensures
            r.slots == slots,
            r.threshold == threshold,
            r.flags@.len() == 0,
            r.well_formed(),
    {
        ProbeLog { slots, threshold, flags: Vec::new() }
    }

    /// Which slot to probe next; none where all are done or on an interruption.
    pub fn next(&self, interrupted: bool) -> (r: Option<usize>)
        requires
            self.well_formed(),
        ensures
            r == (if interrupted || self.flags@.len() == self.slots {
                None::<usize>
            } else {
                Some(self.flags.len())
            }),
            r matches Some(i) ==> i < self.slots,
    {
        if interrupted || self.flags.len() == self.slots {
            None
        } else {
            Some(self.flags.len())
        }
    }

    /// Takes what was captured of the next slot.
    pub fn hear(&mut self, native: &[Binary32])
        requires
            old(self).well_formed(),
            old(self).flags@.len() < old(self).slots,
        ensures
            old(self).goes_on(*final(self), native@),
            final(self).well_formed(),
    {
        let sounding: bool = is_sounding(peak_abs(native), self.threshold);
        self.flags.push(sounding);
    }

    /// Ends the probe: one flag for each slot, unset for those that were not
    /// reached.
    pub fn finish(self) -> (r: Vec<bool>)
        requires
            self.well_formed(),
        ensures
            r@ == Seq::new(self.slots as nat, |i: int| i < self.flags@.len() && self.flags@[i]),
            r.len() == self.slots,
    {
        let slots: usize = self.slots;
        let ghost done = self.flags@;
        let mut flags = self.flags;
        while flags.len() < slots
            invariant
                done.len() <= flags.len() <= slots,
                flags@ =~= Seq::new(flags@.len(), |i: int| i < done.len() && done[i]),
            decreases slots - flags.len(),
        {
            flags.push(false);
        }
        flags
    }

    /// Whether a probe goes on from `self` to `after` with the capture of its next
    /// slot.
    pub open spec fn goes_on(&self, after: ProbeLog, capture: Seq<Binary32>) -> bool {
        &&& after.slots == self.slots
        &&& after.threshold == self.threshold
        &&& after.flags@ == self.flags@.push(peak(capture).at_least(self.threshold))
    }

    /// A probe that heard some slots from its start ends with one flag for each
    /// slot: set exactly where the captured peak reaches the threshold, and unset
    /// where no capture was taken. `logs` are the probe after each number of
    /// captures.
    pub proof fn lemma_probe_has_its_flags(logs: Seq<ProbeLog>, captures: Seq<Seq<Binary32>>)
        requires
            logs.len() == captures.len() + 1,
            logs[0].flags@.len() == 0,
            captures.len() <= logs[0].slots,
            forall|k: int|
                0 <= k < captures.len() ==> logs[k].goes_on(logs[k + 1], #[trigger] captures[k]),
        ensures
            ({
                let last = logs[captures.len() as int];
                &&& last.well_formed()
                &&& last.slots == logs[0].slots
                &&& last.threshold == logs[0].threshold
                &&& last.flags@.len() == captures.len()
                &&& Seq::new(last.slots as nat, |i: int| i < last.flags@.len() && last.flags@[i])
                    == sounding_flags(captures, last.threshold, last.slots as nat)
            }),
        decreases captures.len(),
    {
        let last = logs[captures.len() as int];
        if captures.len() > 0 {
            let front = captures.drop_last();
            let before = logs.drop_last();
            assert forall|k: int| 0 <= k < front.len() implies before[k].goes_on(
                before[k + 1],
                #[trigger] front[k],
            ) by {
                assert(logs[k].goes_on(logs[k + 1], captures[k]));
            }
            ProbeLog::lemma_probe_has_its_flags(before, front);
            let n = (captures.len() - 1) as int;
            assert(logs[n].goes_on(logs[n + 1], captures[n]));
            let earlier = logs[n];
            let all = Seq::new(
                earlier.slots as nat,
                |i: int| i < earlier.flags@.len() && earlier.flags@[i],
            );
            assert forall|i: int| 0 <= i < n implies #[trigger] last.flags@[i] == peak(
                captures[i],
            ).at_least(last.threshold) by {
                assert(all[i] == sounding_flags(front, earlier.threshold, earlier.slots as nat)[i]);
                assert(front[i] == captures[i]);
            }
        }
        assert(Seq::new(last.slots as nat, |i: int| i < last.flags@.len() && last.flags@[i])
            =~= sounding_flags(captures, last.threshold, last.slots as nat));
    }
}

/// The measurement of the ring-outs of some notes, one after the other: how many
/// notes there are, and the tails of those that are done, in seconds.
#[derive(Debug)]
pub struct TailLog {
    /// How many notes are measured.
    pub notes: usize,
    /// The sample rate of the captures.
    pub rate: u32,
    /// How many channels a captured frame has.
    pub channels: u16,
    /// The level from which a frame counts as sounding.
    pub threshold: Binary32,
    /// The tails that were taken.
    pub tails: Vec<Binary64>,
}

impl TailLog {
    /// Whether no more notes are done than there are, and every tail is a length.
    pub open spec fn well_formed(&self) -> bool {
        &&& self.tails@.len() <= self.notes
        &&& are_tails(self.tails@)
    }

    /// The tail of a captured note.
    pub open spec fn tail_of(&self, capture: Seq<Binary32>) -> Binary64 {
        tail_end(capture, self.rate, self.channels, self.threshold)
    }

    /// Starts the measurement of so many notes.
    pub fn start(notes: usize, rate: u32, channels: u16, threshold: Binary32) -> (r: TailLog)
        ensures
            r.notes == notes,
            r.rate == rate,
            r.channels == channels,
            r.threshold == threshold,
            r.tails@.len() == 0,
            r.well_formed(),
    {
        TailLog { notes, rate, channels, threshold, tails: Vec::new() }
    }

    /// Which note to measure next; none where all are done or on an interruption.
    pub fn next(&self, interrupted: bool) -> (r: Option<usize>)
        requires
            self.well_formed(),
        ensures
            r == (if interrupted || self.tails@.len() == self.notes {
                None::<usize>
            } else {
                Some(self.tails.len())
            }),
            r matches Some(i) ==> i < self.notes,
    {
        if interrupted || self.tails.len() == self.notes {
            None
        } else {
            Some(self.tails.len())
        }
    }

    /// Takes what was captured of the next note, and tells its tail.
    pub fn hear(&mut self, native: &[Binary32]) -> (r: Binary64)
        requires
            old(self).well_formed(),
            old(self).tails@.len() < old(self).notes,
        ensures
            r == old(self).tail_of(native@),
            old(self).goes_on(*final(self), native@),
            final(self).well_formed(),
    {
        let tail = last_sound_seconds(native, self.rate, self.channels, self.threshold);
        self.tails.push(tail);
        tail
    }

    /// The longest tail that was taken.
    pub fn longest(&self) -> (r: Binary64)
        requires
            self.well_formed(),
        ensures
            r == longest_of(self.tails@),
            r.bits <= INFINITY,
            forall|i: int| 0 <= i < self.tails@.len() ==> r.at_least(#[trigger] self.tails@[i]),
    {
        longest_among(self.tails.as_slice())
    }

    /// Ends the measurement: the slot length that covers the longest tail plus the
    /// margin, at least a quarter of a second and never more than the maximum.
    pub fn finish(&self, args: &RenderArgs) -> (r: Binary64)
        requires
            self.well_formed(),
            args.slot_margin.value.is_non_negative(),
            args.max_slot_length.value.is_positive(),
        ensures
            r == clamped(
                with_margin(longest_of(self.tails@), args.slot_margin.value),
                args.max_slot_length.value,
            ),
            r.bits <= args.max_slot_length.value.bits,
            r == args.max_slot_length.value || r.at_least(
                with_margin(longest_of(self.tails@), args.slot_margin.value),
            ),
            r.is_positive(),
    {
        proof {
            lemma_chosen_length_covers_tails(
                self.tails@,
                args.slot_margin.value,
                args.max_slot_length.value,
            );
        }
        chosen_slot_length(self.longest(), args.slot_margin.value, args.max_slot_length.value)
    }

    /// Whether a measurement goes on from `self` to `after` with the capture of its
    /// next note.
    pub open spec fn goes_on(&self, after: TailLog, capture: Seq<Binary32>) -> bool {
        &&& after.notes == self.notes
        &&& after.rate == self.rate
        &&& after.channels == self.channels
        &&& after.threshold == self.threshold
        &&& after.tails@ == self.tails@.push(self.tail_of(capture))
    }

    /// A measurement that heard some notes from its start holds their tails, each
    /// in its place, and the longest of them is at least every one. `logs` are the
    /// measurement after each number of captures.
    pub proof fn lemma_measurement_has_its_tails(logs: Seq<TailLog>, captures: Seq<Seq<Binary32>>)
        requires
            logs.len() == captures.len() + 1,
            logs[0].tails@.len() == 0,
            logs[captures.len() as int].well_formed(),
            forall|k: int|
                0 <= k < captures.len() ==> logs[k].goes_on(logs[k + 1], #[trigger] captures[k]),
        ensures
            ({
                let last = logs[captures.len() as int];
                &&& last.notes == logs[0].notes
                &&& last.tails@ == captures.map_values(|c: Seq<Binary32>| logs[0].tail_of(c))
                &&& forall|k: int|
                    0 <= k < captures.len() ==> longest_of(last.tails@).at_least(
                        logs[0].tail_of(#[trigger] captures[k]),
                    )
            }),
    {
        let last = logs[captures.len() as int];
        TailLog::lemma_tails_of_captures(logs, captures);
        lemma_longest_is_greatest(last.tails@);
        assert forall|k: int| 0 <= k < captures.len() implies longest_of(last.tails@).at_least(
            logs[0].tail_of(#[trigger] captures[k]),
        ) by {
            assert(last.tails@[k] == logs[0].tail_of(captures[k]));
        }
    }

    /// The tails of the captures that a measurement took from its start.
    proof fn lemma_tails_of_captures(logs: Seq<TailLog>, captures: Seq<Seq<Binary32>>)
        requires
            logs.len() == captures.len() + 1,
            logs[0].tails@.len() == 0,
            forall|k: int|
                0 <= k < captures.len() ==> logs[k].goes_on(logs[k + 1], #[trigger] captures[k]),
        ensures
            ({
                let last = logs[captures.len() as int];
                &&& last.notes == logs[0].notes
                &&& last.rate == logs[0].rate
                &&& last.channels == logs[0].channels
                &&& last.threshold == logs[0].threshold
                &&& last.tails@ == captures.map_values(|c: Seq<Binary32>| logs[0].tail_of(c))
            }),
        decreases captures.len(),
    {
        let last = logs[captures.len() as int];
        if captures.len() > 0 {
            let front = captures.drop_last();
            let before = logs.drop_last();
            assert forall|k: int| 0 <= k < front.len() implies before[k].goes_on(
                before[k + 1],
                #[trigger] front[k],
            ) by {
                assert(logs[k].goes_on(logs[k + 1], captures[k]));
            }
            TailLog::lemma_tails_of_captures(before, front);
            let n = (captures.len() - 1) as int;
            assert(logs[n].goes_on(logs[n + 1], captures[n]));
        }
        assert(last.tails@ =~= captures.map_values(|c: Seq<Binary32>| logs[0].tail_of(c)));
    }
}

} // verus!
