//! The course of a live run: what is done next, after what has happened.
use crate::arg_error::ArgError;
use crate::audio::{slot_status, slot_status_text};
use crate::chain::append_samples;
use crate::cli::RenderArgs;
use crate::level::{silence, Binary32};
use crate::render::{needs_countdown, MEM_WARN_BYTES};
use crate::signal::{normalize_peak, normalized};
use crate::text::texts;
use vstd::prelude::*;

verus! {

/// The recording of one chain: which slots are to be recorded, and the samples
/// and statuses of those that are done.
#[derive(Debug)]
pub struct ChainLog {
    /// Which slots are to be recorded.
    pub flags: Vec<bool>,
    /// How many samples a slot has.
    pub slot_samples: usize,
    /// The samples of the slots that are done, one slot after the other.
    pub samples: Vec<Binary32>,
    /// The statuses of the slots that are done.
    pub statuses: Vec<String>,
}

/// What to do with the next slot of a chain.
#[derive(Copy, Clone, Debug, PartialEq, Eq, Structural)]
pub enum SlotRequest {
    /// Stop: the chain is complete or interrupted.
    Stop,
    /// Write a silent slot without recording.
    Silent,
    /// Play and record the slot.
    Record,
}

impl ChainLog {
    /// Whether no more slots are done than there are, and each of them has its
    /// samples.
    pub open spec fn well_formed(&self) -> bool {
        &&& self.statuses@.len() <= self.flags@.len()
        &&& self.samples@.len() == self.statuses@.len() * self.slot_samples
    }

    /// Slice `i` of the samples.
    pub open spec fn slice(&self, i: int) -> Seq<Binary32> {
        self.samples@.subrange(i * self.slot_samples, (i + 1) * self.slot_samples)
    }

    /// What is done with the next slot.
    pub open spec fn request(&self, interrupted: bool) -> SlotRequest {
        if interrupted || self.statuses@.len() >= self.flags@.len() {
            SlotRequest::Stop
        } else if self.flags@[self.statuses@.len() as int] {
            SlotRequest::Record
        } else {
            SlotRequest::Silent
        }
    }

    /// Starts a chain with the given record flags and slots of so many samples.
    pub fn start(flags: Vec<bool>, slot_samples: usize) -> (r: ChainLog)
        ensures
            r.flags == flags,
            r.slot_samples == slot_samples,
            r.statuses@.len() == 0,
            r.samples@.len() == 0,
            r.well_formed(),
    {
        assert(0 * slot_samples == 0);
        ChainLog { flags, slot_samples, samples: Vec::new(), statuses: Vec::new() }
    }

    /// What to do with the next slot.
    pub fn next(&self, interrupted: bool) -> (r: SlotRequest)
        requires
            self.well_formed(),
        ensures
            r == self.request(interrupted),
    {
        if interrupted || self.statuses.len() >= self.flags.len() {
            SlotRequest::Stop
        } else if self.flags[self.statuses.len()] {
            SlotRequest::Record
        } else {
            SlotRequest::Silent
        }
    }

    /// Skips the next slot: it is all silence.
    pub fn skip(&mut self)
        requires
            old(self).well_formed(),
            old(self).statuses@.len() < old(self).flags@.len(),
        ensures
            final(self).flags == old(self).flags,
            final(self).slot_samples == old(self).slot_samples,
            final(self).samples@ == old(self).samples@ + Seq::new(
                old(self).slot_samples as nat,
                |i: int| silence(),
            ),
            texts(final(self).statuses@) == texts(old(self).statuses@).push("silent"@),
            final(self).well_formed(),
    {
        let ghost before = texts(self.statuses@);
        let ghost samples = self.samples@;
        let mut k: usize = 0;
        while k < self.slot_samples
            invariant
                k <= self.slot_samples,
                self.flags == old(self).flags,
                self.slot_samples == old(self).slot_samples,
                self.statuses == old(self).statuses,
                self.samples@ =~= samples + Seq::new(k as nat, |i: int| silence()),
            decreases self.slot_samples - k,
        {
            self.samples.push(Binary32 { bits: 0 });
            k += 1;
        }
        self.statuses.push("silent".to_string());
        assert(texts(self.statuses@) =~= before.push("silent"@));
        proof {
            lemma_one_more(before.len(), self.slot_samples as nat);
        }
    }

    /// Takes the samples of the next slot, which counts as `rendered` or `silent`
    /// by its peak.
    pub fn record(&mut self, samples: &[Binary32])
        requires
            old(self).well_formed(),
            old(self).statuses@.len() < old(self).flags@.len(),
            samples.len() == old(self).slot_samples,
        ensures
            final(self).flags == old(self).flags,
            final(self).slot_samples == old(self).slot_samples,
            final(self).samples@ == old(self).samples@ + samples@,
            texts(final(self).statuses@) == texts(old(self).statuses@).push(
                slot_status_text(samples@),
            ),
            final(self).well_formed(),
    {
        let ghost before = texts(self.statuses@);
        let status = slot_status(samples);
        append_samples(&mut self.samples, samples);
        self.statuses.push(status);
        assert(texts(self.statuses@) =~= before.push(slot_status_text(samples@)));
        proof {
            lemma_one_more(before.len(), self.slot_samples as nat);
        }
    }

    /// What is appended to a chain is its next slice, and the slices before it stay
    /// as they are.
    pub proof fn lemma_next_slice(before: ChainLog, after: ChainLog, slot: Seq<Binary32>, i: int)
        requires
            before.well_formed(),
            after.slot_samples == before.slot_samples,
            after.samples@ == before.samples@ + slot,
            slot.len() == before.slot_samples,
            0 <= i <= before.statuses@.len(),
        ensures
            i < before.statuses@.len() ==> after.slice(i) == before.slice(i),
            i == before.statuses@.len() ==> after.slice(i) == slot,
    {
        let size = before.slot_samples as int;
        let n = before.statuses@.len() as int;
        lemma_one_more(i as nat, size as nat);
        assert(0 <= i * size) by (nonlinear_arith)
            requires
                i >= 0,
                size >= 0,
        ;
        if i < n {
            assert((i + 1) * size <= n * size) by (nonlinear_arith)
                requires
                    i + 1 <= n,
                    size >= 0,
            ;
            assert(after.slice(i) =~= before.slice(i));
        } else {
            assert(after.slice(i) =~= slot);
        }
    }

    /// The statuses of a chain of which some slots are done: the rest was skipped.
    pub open spec fn padded(done: Seq<Seq<char>>, slots: nat) -> Seq<Seq<char>> {
        Seq::new(
            slots,
            |i: int|
                if i < done.len() {
                    done[i]
                } else {
                    "skipped"@
                },
        )
    }

    /// Ends the chain: the samples, the statuses of all slots, `skipped` for those
    /// that were not reached, and how many slots are done.
    pub fn finish(self) -> (r: (Vec<Binary32>, Vec<String>, usize))
        requires
            self.well_formed(),
        ensures
            r.0 == self.samples,
            texts(r.1@) == ChainLog::padded(texts(self.statuses@), self.flags@.len()),
            r.1.len() == self.flags.len(),
            r.2 == self.statuses@.len(),
            forall|i: int|
                0 <= i < self.statuses@.len() ==> (#[trigger] r.1@[i])@ == self.statuses@[i]@,
            forall|i: int|
                self.statuses@.len() <= i < r.1@.len() ==> (#[trigger] r.1@[i])@ == "skipped"@,
    {
        let samples = self.samples;
        let slots: usize = self.flags.len();
        let completed: usize = self.statuses.len();
        let ghost done = texts(self.statuses@);
        let mut statuses = self.statuses;
        while statuses.len() < slots
            invariant
                done.len() == completed <= statuses.len() <= slots,
                texts(statuses@) =~= ChainLog::padded(done, statuses@.len()),
            decreases slots - statuses.len(),
        {
            let ghost before = texts(statuses@);
            statuses.push("skipped".to_string());
            assert(texts(statuses@) =~= before.push("skipped"@));
        }
        proof {
            let all = texts(statuses@);
            assert forall|i: int| 0 <= i < statuses@.len() implies (#[trigger] statuses@[i])@ == all[i] by {}
            assert forall|i: int| 0 <= i < completed implies done[i] == (#[trigger] self.statuses@[i])@ by {}
        }
        (samples, statuses, completed)
    }
}

/// One more slot takes as many samples more.
proof fn lemma_one_more(n: nat, size: nat)
    ensures
        (n + 1) * size == n * size + size,
{
    assert((n + 1) * size == n * size + size) by (nonlinear_arith);
}

/// The slot that a step of a chain makes: what was recorded, or silence where
/// nothing was to be recorded.
pub open spec fn slot_of_step(flag: bool, take: Seq<Binary32>, size: nat) -> Seq<Binary32> {
    if flag {
        take
    } else {
        Seq::new(size, |i: int| silence())
    }
}

/// The status that a step of a chain leaves.
pub open spec fn status_of_step(flag: bool, take: Seq<Binary32>) -> Seq<char> {
    if flag {
        slot_status_text(take)
    } else {
        "silent"@
    }
}

impl ChainLog {
    /// Whether a chain goes on from `self` to `after` with its next slot, for which
    /// `take` is what was recorded.
    pub open spec fn goes_on(&self, after: ChainLog, take: Seq<Binary32>) -> bool {
        let n = self.statuses@.len() as int;
        let flag = self.flags@[n];
        &&& n < self.flags@.len()
        &&& after.flags == self.flags
        &&& after.slot_samples == self.slot_samples
        &&& after.samples@ == self.samples@ + slot_of_step(flag, take, self.slot_samples as nat)
        &&& texts(after.statuses@) == texts(self.statuses@).push(status_of_step(flag, take))
    }

    /// A chain that went through some steps from its start has that many slots of
    /// one size: slice `i` is what was recorded for slot `i` or silence, with its
    /// status. `logs` are the chain after each number of steps, `takes` what was
    /// recorded.
    pub proof fn lemma_chain_has_its_slots(
        logs: Seq<ChainLog>,
        takes: Seq<Seq<Binary32>>,
        n: nat,
        i: int,
    )
        requires
            n < logs.len(),
            n <= takes.len(),
            logs[0].well_formed(),
            logs[0].statuses@.len() == 0,
            forall|k: int|
                0 <= k < n ==> (#[trigger] takes[k]).len() == logs[0].slot_samples && logs[k].goes_on(
                    logs[k + 1],
                    takes[k],
                ),
            0 <= i < n,
        ensures
            ({
                let last = logs[n as int];
                let flag = logs[0].flags@[i];
                &&& last.well_formed()
                &&& last.flags == logs[0].flags
                &&& last.slot_samples == logs[0].slot_samples
                &&& last.statuses@.len() == n
                &&& last.slice(i) == slot_of_step(flag, takes[i], last.slot_samples as nat)
                &&& last.statuses@[i]@ == status_of_step(flag, takes[i])
            }),
        decreases n,
    {
        let k = (n - 1) as nat;
        let (before, after) = (logs[k as int], logs[n as int]);
        if k > 0 {
            ChainLog::lemma_chain_has_its_slots(
                logs,
                takes,
                k,
                if i < k {
                    i
                } else {
                    0
                },
            );
        }
        assert(takes[k as int].len() == logs[0].slot_samples);
        let slot = slot_of_step(before.flags@[k as int], takes[k as int], before.slot_samples as nat);
        let status = status_of_step(before.flags@[k as int], takes[k as int]);
        ChainLog::lemma_next_slice(before, after, slot, i);
        lemma_one_more(k, before.slot_samples as nat);
        let all = texts(after.statuses@);
        assert(all.len() == n);
        assert(all[i] == after.statuses@[i]@);
        if i < k {
            assert(all[i] == texts(before.statuses@)[i]);
        } else {
            assert(all[i] == status);
        }
    }
}

/// Recorded samples at the level they are written at: normalized to a target unless
/// that is switched off.
pub open spec fn leveled_samples(args: RenderArgs, samples: Seq<Binary32>, target: Binary32) -> Seq<
    Binary32,
> {
    if args.no_normalize {
        samples
    } else {
        normalized(samples, target)
    }
}

/// Brings recorded samples to the level they are written at.
pub fn leveled(args: &RenderArgs, samples: Vec<Binary32>, target: Binary32) -> (r: Vec<Binary32>)
    ensures
        r@ == leveled_samples(*args, samples@, target),
        args.no_normalize ==> r@ == samples@,
        !args.no_normalize ==> r@ == normalized(samples@, target),
{
    let mut samples = samples;
    if !args.no_normalize {
        normalize_peak(&mut samples, target);
    }
    samples
}

/// A chain that is ready to be written.
#[derive(Debug)]
pub struct FinishedChain {
    /// The samples of the slots that are done.
    pub samples: Vec<Binary32>,
    /// The statuses of all slots.
    pub statuses: Vec<String>,
    /// How many slots are done.
    pub completed: usize,
    /// Whether some slot was not reached.
    pub partial: bool,
}

/// Ends the recording of a chain: nothing where no slot is done, otherwise what is
/// written of it, its samples normalized to `target` unless that is switched off.
pub fn finish_recorded_chain(args: &RenderArgs, log: ChainLog, target: Binary32) -> (r: Option<
    FinishedChain,
>)
    requires
        log.well_formed(),
    ensures
        r is None <==> log.statuses@.len() == 0,
        r matches Some(c) ==> {
            &&& c.samples@ == leveled_samples(*args, log.samples@, target)
            &&& args.no_normalize ==> c.samples@ == log.samples@
            &&& !args.no_normalize ==> c.samples@ == normalized(log.samples@, target)
            &&& texts(c.statuses@) == ChainLog::padded(texts(log.statuses@), log.flags@.len())
            &&& c.statuses@.len() == log.flags@.len()
            &&& c.completed == log.statuses@.len()
            &&& c.partial == (log.statuses@.len() < log.flags@.len())
        },
{
    let slots: usize = log.flags.len();
    let (recorded, statuses, completed) = log.finish();
    if completed == 0 {
        return None;
    }
    let samples = leveled(args, recorded, target);
    Some(FinishedChain { samples, statuses, completed, partial: completed < slots })
}

/// Why a live run ends without files.
#[derive(Copy, Clone, Debug, PartialEq, Eq, Structural)]
pub enum RunError {
    /// Interrupted while the notes were probed.
    Probe,
    /// Interrupted while the ring-out was measured.
    Measurement,
    /// Interrupted before recording.
    Countdown,
    /// No slot was rendered.
    NothingRendered,
}

impl RunError {
    /// The message for the user.
    pub open spec fn text(self) -> Seq<char> {
        match self {
            RunError::Probe => "interrupted during probe; nothing recorded"@,
            RunError::Measurement => "interrupted during measurement; nothing recorded"@,
            RunError::Countdown => "aborted before recording"@,
            RunError::NothingRendered => "no slots were rendered"@,
        }
    }

    /// The message for the user.
    pub fn message(&self) -> (r: String)
        ensures
            r@ == self.text(),
    {
        match self {
            RunError::Probe => "interrupted during probe; nothing recorded".to_string(),
            RunError::Measurement => "interrupted during measurement; nothing recorded".to_string(),
            RunError::Countdown => "aborted before recording".to_string(),
            RunError::NothingRendered => "no slots were rendered".to_string(),
        }
    }
}

impl RunError {
    /// Whether every note is released before the run fails: notes may be sounding
    /// wherever it was interrupted.
    pub fn silences(&self) -> (r: bool)
        ensures
            r == (*self != RunError::NothingRendered),
    {
        match self {
            RunError::NothingRendered => false,
            _ => true,
        }
    }
}

/// Where a live run stands.
#[derive(Copy, Clone, Debug, PartialEq, Eq, Structural)]
pub enum Stage {
    /// Nothing is done yet.
    Start,
    /// The devices are being opened.
    Opening,
    /// The test note is being recorded.
    Testing,
    /// The notes are being probed.
    Probing,
    /// The ring-out is being measured.
    Measuring,
    /// The jobs are being planned.
    Planning,
    /// The countdown before recording runs, with so many seconds left.
    Counting(u8),
    /// A job is being recorded.
    Recording(usize),
    /// The run is over.
    Over,
}

/// What is done next in a live run.
#[derive(Copy, Clone, Debug, PartialEq, Eq, Structural)]
pub enum Request {
    /// Print the plan; the run is over.
    PrintPlan,
    /// Open the MIDI output and the audio input.
    OpenDevices,
    /// Record one test note and write it; the run is over afterwards.
    TestNote(u8),
    /// Probe every note.
    Probe,
    /// Measure the ring-out.
    Measure,
    /// Build the jobs and estimate their cost.
    Plan,
    /// Show the countdown and wait a second.
    Countdown(u8),
    /// Record this job and write its outputs where a slot was completed.
    Record(usize),
    /// List the written files; the run is over.
    Finish,
    /// Fail, after releasing every note where the error asks for it; the run is
    /// over.
    Fail(RunError),
    /// Nothing.
    Nothing,
}

/// What has happened since the last request.
#[derive(Copy, Clone, Debug, PartialEq, Eq, Structural)]
pub enum Outcome {
    /// The request was carried out.
    Done,
    /// The jobs are built: how many there are and what they take in memory.
    Planned {
        /// How many jobs there are.
        jobs: usize,
        /// The bytes of the largest one.
        peak_bytes: usize,
    },
    /// A job is recorded: how many of its slots are completed.
    Recorded {
        /// How many slots are completed.
        completed: usize,
    },
}

/// Whether an outcome is a recorded job with a completed slot.
pub open spec fn completes_slot(event: (Outcome, bool)) -> bool {
    event.0 matches Outcome::Recorded { completed } && completed > 0
}

/// What of the arguments decides the course of a run.
#[derive(Copy, Clone, Debug, PartialEq, Eq, Structural)]
pub struct Course {
    /// Only print the plan.
    pub dry_run: bool,
    /// Only record a test note.
    pub test_note: Option<u8>,
    /// Probe the notes first.
    pub probe: bool,
    /// Measure the ring-out first.
    pub measure: bool,
}

/// A live run.
#[derive(Copy, Clone, Debug, PartialEq, Eq, Structural)]
pub struct Session {
    /// What decides its course.
    pub course: Course,
    /// Where it stands.
    pub stage: Stage,
    /// How many jobs there are, once they are planned.
    pub jobs: usize,
    /// Whether some job has a completed slot.
    pub any_completed: bool,
}

/// The course that arguments ask for: the probe serves to skip silent slots and
/// to choose what to measure.
pub open spec fn course_of(args: RenderArgs) -> Course {
    Course {
        dry_run: args.dry_run,
        test_note: args.test_note,
        probe: !(args.no_probe && !args.auto_slot_length),
        measure: args.auto_slot_length,
    }
}

impl Session {
    /// A run that has not begun.
    pub open spec fn fresh(course: Course) -> Session {
        Session { course, stage: Stage::Start, jobs: 0, any_completed: false }
    }

    /// The run at a stage, and what is done there.
    pub open spec fn at(self, stage: Stage, request: Request) -> (Session, Request) {
        (Session { stage, ..self }, request)
    }

    /// The run that ends, and what is done last.
    pub open spec fn over(self, request: Request) -> (Session, Request) {
        self.at(Stage::Over, request)
    }

    /// On from the probe, or from where it would have been.
    pub open spec fn after_probe(self) -> (Session, Request) {
        if self.course.measure {
            self.at(Stage::Measuring, Request::Measure)
        } else {
            self.at(Stage::Planning, Request::Plan)
        }
    }

    /// On to job `k`, or to the end where there is none or on an interruption.
    pub open spec fn to_job(self, k: usize, interrupted: bool) -> (Session, Request) {
        if k < self.jobs && !interrupted {
            self.at(Stage::Recording(k), Request::Record(k))
        } else if self.any_completed {
            self.over(Request::Finish)
        } else {
            self.over(Request::Fail(RunError::NothingRendered))
        }
    }

    /// What follows on an outcome; `interrupted` tells whether the user has asked
    /// to stop.
    pub open spec fn follow(self, outcome: Outcome, interrupted: bool) -> (Session, Request) {
        match self.stage {
            Stage::Start => if self.course.dry_run {
                self.over(Request::PrintPlan)
            } else {
                self.at(Stage::Opening, Request::OpenDevices)
            },
            Stage::Opening => match self.course.test_note {
                Some(note) => self.at(Stage::Testing, Request::TestNote(note)),
                None => if self.course.probe {
                    self.at(Stage::Probing, Request::Probe)
                } else {
                    self.after_probe()
                },
            },
            Stage::Testing => self.over(Request::Nothing),
            Stage::Probing => if interrupted {
                self.over(Request::Fail(RunError::Probe))
            } else {
                self.after_probe()
            },
            Stage::Measuring => if interrupted {
                self.over(Request::Fail(RunError::Measurement))
            } else {
                self.at(Stage::Planning, Request::Plan)
            },
            Stage::Planning => match outcome {
                Outcome::Planned { jobs, peak_bytes } => {
                    let planned = Session { jobs, ..self };
                    if peak_bytes <= MEM_WARN_BYTES {
                        planned.to_job(0, interrupted)
                    } else if interrupted {
                        planned.over(Request::Fail(RunError::Countdown))
                    } else {
                        planned.at(Stage::Counting(5), Request::Countdown(5))
                    }
                },
                _ => (self, Request::Nothing),
            },
            Stage::Counting(left) => if interrupted {
                self.over(Request::Fail(RunError::Countdown))
            } else if left > 1 {
                self.at(Stage::Counting((left - 1) as u8), Request::Countdown((left - 1) as u8))
            } else {
                self.to_job(0, interrupted)
            },
            Stage::Recording(k) => match outcome {
                Outcome::Recorded { completed } => {
                    let recorded = Session {
                        any_completed: self.any_completed || completed > 0,
                        ..self
                    };
                    if k < self.jobs {
                        recorded.to_job((k + 1) as usize, interrupted)
                    } else {
                        (self, Request::Nothing)
                    }
                },
                _ => (self, Request::Nothing),
            },
            Stage::Over => (self, Request::Nothing),
        }
    }

    /// Begins a run, where its arguments are valid: they are looked at before
    /// anything is done.
    pub fn begin(args: &RenderArgs) -> (r: Result<Session, ArgError>)
        ensures
            r is Ok <==> args.valid(),
            r matches Ok(s) ==> s == Session::fresh(course_of(*args)),
            r matches Err(e) ==> Some(e) == args.fault(),
    {
        match args.validate() {
            Ok(()) => Ok(Session::start(args)),
            Err(e) => Err(e),
        }
    }

    /// A run with these valid arguments.
    pub fn start(args: &RenderArgs) -> (r: Session)
        requires
            args.valid(),
        ensures
            r == Session::fresh(course_of(*args)),
    {
        Session {
            course: Course {
                dry_run: args.dry_run,
                test_note: args.test_note,
                probe: !(args.no_probe && !args.auto_slot_length),
                measure: args.auto_slot_length,
            },
            stage: Stage::Start,
            jobs: 0,
            any_completed: false,
        }
    }

    /// Goes to a stage and says what is done there.
    fn go(&mut self, stage: Stage, request: Request) -> (r: Request)
        ensures
            (*final(self), r) == old(self).at(stage, request),
    {
        self.stage = stage;
        request
    }

    /// Goes on from the probe.
    fn go_after_probe(&mut self) -> (r: Request)
        ensures
            (*final(self), r) == old(self).after_probe(),
    {
        if self.course.measure {
            self.go(Stage::Measuring, Request::Measure)
        } else {
            self.go(Stage::Planning, Request::Plan)
        }
    }

    /// Goes on to a job, or to the end.
    fn go_to_job(&mut self, k: usize, interrupted: bool) -> (r: Request)
        ensures
            (*final(self), r) == old(self).to_job(k, interrupted),
    {
        if k < self.jobs && !interrupted {
            self.go(Stage::Recording(k), Request::Record(k))
        } else if self.any_completed {
            self.go(Stage::Over, Request::Finish)
        } else {
            self.go(Stage::Over, Request::Fail(RunError::NothingRendered))
        }
    }

    /// Takes note of an outcome and says what is done next.
    pub fn next(&mut self, outcome: Outcome, interrupted: bool) -> (r: Request)
        ensures
            (*final(self), r) == old(self).follow(outcome, interrupted),
    {
        match self.stage {
            Stage::Start => {
                if self.course.dry_run {
                    self.go(Stage::Over, Request::PrintPlan)
                } else {
                    self.go(Stage::Opening, Request::OpenDevices)
                }
            },
            Stage::Opening => match self.course.test_note {
                Some(note) => self.go(Stage::Testing, Request::TestNote(note)),
                None => {
                    if self.course.probe {
                        self.go(Stage::Probing, Request::Probe)
                    } else {
                        self.go_after_probe()
                    }
                },
            },
            Stage::Testing => self.go(Stage::Over, Request::Nothing),
            Stage::Probing => {
                if interrupted {
                    self.go(Stage::Over, Request::Fail(RunError::Probe))
                } else {
                    self.go_after_probe()
                }
            },
            Stage::Measuring => {
                if interrupted {
                    self.go(Stage::Over, Request::Fail(RunError::Measurement))
                } else {
                    self.go(Stage::Planning, Request::Plan)
                }
            },
            Stage::Planning => match outcome {
                Outcome::Planned { jobs, peak_bytes } => {
                    self.jobs = jobs;
                    if !needs_countdown(peak_bytes) {
                        self.go_to_job(0, interrupted)
                    } else if interrupted {
                        self.go(Stage::Over, Request::Fail(RunError::Countdown))
                    } else {
                        self.go(Stage::Counting(5), Request::Countdown(5))
                    }
                },
                _ => Request::Nothing,
            },
            Stage::Counting(left) => {
                if interrupted {
                    self.go(Stage::Over, Request::Fail(RunError::Countdown))
                } else if left > 1 {
                    self.go(Stage::Counting(left - 1), Request::Countdown(left - 1))
                } else {
                    self.go_to_job(0, interrupted)
                }
            },
            Stage::Recording(k) => match outcome {
                Outcome::Recorded { completed } => {
                    if k < self.jobs {
                        self.any_completed = self.any_completed || completed > 0;
                        self.go_to_job(k + 1, interrupted)
                    } else {
                        Request::Nothing
                    }
                },
                _ => Request::Nothing,
            },
            Stage::Over => Request::Nothing,
        }
    }

    /// The run after some outcomes, and all that was done in it.
    pub open spec fn history(course: Course, events: Seq<(Outcome, bool)>) -> (Session, Seq<Request>)
        decreases events.len(),
    {
        if events.len() == 0 {
            (Session::fresh(course), Seq::empty())
        } else {
            let (before, requests) = Session::history(course, events.drop_last());
            let (after, request) = before.follow(events.last().0, events.last().1);
            (after, requests.push(request))
        }
    }

    /// A dry run opens no device and records nothing, whatever happens.
    pub proof fn lemma_dry_run_touches_nothing(course: Course, events: Seq<(Outcome, bool)>)
        requires
            course.dry_run,
        ensures
            Session::history(course, events).0.course == course,
            Session::history(course, events).0.stage == Stage::Start || Session::history(
                course,
                events,
            ).0.stage == Stage::Over,
            forall|i: int|
                0 <= i < events.len() ==> (#[trigger] Session::history(course, events).1[i]
                    == Request::PrintPlan || Session::history(course, events).1[i]
                    == Request::Nothing),
            Session::history(course, events).1.len() == events.len(),
        decreases events.len(),
    {
        if events.len() > 0 {
            Session::lemma_dry_run_touches_nothing(course, events.drop_last());
            let before = Session::history(course, events.drop_last()).1;
            let all = Session::history(course, events).1;
            assert forall|i: int| 0 <= i < events.len() implies (#[trigger] all[i]
                == Request::PrintPlan || all[i] == Request::Nothing) by {
                if i < before.len() {
                    assert(all[i] == before[i]);
                }
            }
        }
    }

    /// A run lists written files only where some recorded job has a completed
    /// slot, and only then.
    pub proof fn lemma_finish_needs_a_slot(course: Course, events: Seq<(Outcome, bool)>)
        ensures
            Session::history(course, events).1.len() == events.len(),
            Session::history(course, events).0.any_completed ==> exists|k: int|
                0 <= k < events.len() && completes_slot(#[trigger] events[k]),
            forall|i: int|
                0 <= i < events.len() && #[trigger] Session::history(course, events).1[i]
                    == Request::Finish ==> Session::history(course, events).0.any_completed,
        decreases events.len(),
    {
        if events.len() > 0 {
            let front = events.drop_last();
            Session::lemma_finish_needs_a_slot(course, front);
            let (before, requests) = Session::history(course, front);
            let (after, all) = Session::history(course, events);
            assert forall|i: int| 0 <= i < events.len() && #[trigger] all[i] == Request::Finish implies
                after.any_completed by {
                if i < requests.len() {
                    assert(all[i] == requests[i]);
                }
            }
            if before.any_completed {
                let k = choose|k: int|
                    0 <= k < front.len() && completes_slot(#[trigger] front[k]);
                assert(events[k] == front[k]);
            } else if after.any_completed {
                assert(events[events.len() - 1] == events.last());
            }
        }
    }

    /// An interruption before recording starts ends the run with an error and
    /// records nothing: while notes are probed, while the ring-out is measured and
    /// during the countdown.
    pub proof fn lemma_interruption_records_nothing(self, outcome: Outcome)
        requires
            self.stage == Stage::Probing || self.stage == Stage::Measuring || self.stage is Counting,
        ensures
            self.follow(outcome, true).0.stage == Stage::Over,
            self.follow(outcome, true).1 == Request::Fail(
                match self.stage {
                    Stage::Probing => RunError::Probe,
                    Stage::Measuring => RunError::Measurement,
                    _ => RunError::Countdown,
                },
            ),
    {
    }

    /// A run that is over does nothing more.
    pub proof fn lemma_over_is_over(self, outcome: Outcome, interrupted: bool)
        requires
            self.stage == Stage::Over,
        ensures
            self.follow(outcome, interrupted) == (self, Request::Nothing),
    {
    }

    /// Jobs are recorded one after the other: after job `k` comes job `k + 1`, or
    /// the end of the run.
    pub proof fn lemma_jobs_in_order(self, k: usize, completed: usize, interrupted: bool)
        requires
            self.stage == Stage::Recording(k),
            k < self.jobs,
        ensures
            ({
                let (after, request) = self.follow(Outcome::Recorded { completed }, interrupted);
                if k + 1 < self.jobs && !interrupted {
                    request == Request::Record((k + 1) as usize)
                } else {
                    after.stage == Stage::Over && (request == Request::Finish || request
                        == Request::Fail(RunError::NothingRendered))
                }
            }),
    {
    }
}

} // verus!
